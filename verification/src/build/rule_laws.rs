//! What the rules that rules expand to have of them.
use vstd::prelude::*;

use crate::build::expand::{
    bin_files, claim, claim_all, expand_patterns, expanded_rules, first_hidden, first_missing,
    first_repeated, flag_error, has_flag, inputs_of, is_bin, names_local_file, open_bins, outputs_for,
    pattern_names, repeated_output, simple_matches, with_declared, without_repeats, Around, Expanding,
};
use crate::parser::glob::{dir_part, expand_all, expand_one, file_part, has_glob, listing_text, Listing};
use crate::parser::glob_laws::{
    a_pattern_gives_what_it_matches, is_match, patterns_are_expanded_in_order,
};
use crate::parser::percent::{
    command_text, has_hidden_part, input_of, output_text, pattern_value, substitute_without_flags,
};
use crate::parser::rule::RuleText;
use crate::parser::vardb::VarTables;
use crate::sorting::{sort, sort_is_sorted};
use crate::text::{find, find_is_first_occurrence};

verus! {

// ------------------------------------------------ one rule of the result

/// A text of a rule after its `%`-flags and the variables that it was parsed with are
/// replaced.
pub open spec fn is_text_of(
    rule: RuleText,
    made: RuleText,
    dir_name: Seq<char>,
    before: Seq<char>,
    after: Seq<char>,
) -> bool {
    let inputs = Seq::new(made.inputs.len(), |i: int| input_of(made.inputs[i]));
    let text = command_text(before, inputs, made.outputs, rule.order_only_inputs, dir_name);
    match rule.vars_snapshot {
        Some(m) => after == (VarTables { vars: m, config: Map::empty() }).expand(text),
        None => after == text,
    }
}

/// Whether a rule of the result is made of a rule: what does not depend on the inputs
/// is that of the rule; each output is its pattern seen from the first input; and the
/// command is that of the rule for these inputs and outputs.
pub open spec fn is_made_of(rule: RuleText, made: RuleText, dir_name: Seq<char>) -> bool {
    &&& made.order_only_inputs == rule.order_only_inputs
    &&& made.extra_outputs == rule.extra_outputs
    &&& made.line_number == rule.line_number
    &&& made.bin == rule.bin
    &&& made.command.flags == rule.command.flags
    &&& made.had_inputs == (rule.foreach || rule.had_inputs)
    &&& rule.foreach ==> made.inputs.len() == 1
    &&& made.outputs.len() == rule.outputs.len()
    &&& forall|j: int|
        0 <= j < rule.outputs.len() ==> #[trigger] made.outputs[j] == (if made.inputs.len() == 0 {
            rule.outputs[j]
        } else {
            output_text(rule.outputs[j], input_of(made.inputs[0]))
        })
    &&& is_text_of(rule, made, dir_name, rule.command.command, made.command.command)
    &&& made.command.display is Some <==> rule.command.display is Some
    &&& rule.command.display matches Some(d) ==> is_text_of(
        rule,
        made,
        dir_name,
        d,
        made.command.display->0,
    )
}

/// Whether one of some rules has an output.
pub open spec fn some_makes(rules: Seq<RuleText>, output: Seq<char>) -> bool {
    exists|b: int| 0 <= b < rules.len() && (#[trigger] rules[b]).outputs.contains(output)
}

/// Whether one of some rules puts an output into a bin.
pub open spec fn some_puts(rules: Seq<RuleText>, bin: Seq<char>, output: Seq<char>) -> bool {
    exists|b: int|
        0 <= b < rules.len() && (#[trigger] rules[b]).bin == Some(bin)
            && rules[b].outputs.contains(output)
}

/// Whether a name that is no bin stands for a file: itself, where it is no pattern; else
/// a file of the searched directory that it matches, or an output of a rule before.
pub open spec fn stands_for(
    name: Seq<char>,
    before: Seq<RuleText>,
    around: Around,
    file: Seq<char>,
) -> bool {
    if !has_glob(name) {
        file == name
    } else {
        ||| {
            &&& around.listings.dom().contains(dir_part(name))
            &&& listing_text(around.listings[dir_part(name)]) matches Ok(names) && is_match(
                dir_part(name),
                file_part(name),
                names,
                file,
            )
        }
        ||| some_makes(before, file) && pattern_names(name, file)
    }
}

/// Whether a file is one of those that an input of a rule stands for: an input `{bin}`
/// stands for what the rules before put into that bin.
pub open spec fn is_input(
    name: Seq<char>,
    before: Seq<RuleText>,
    around: Around,
    file: Seq<char>,
) -> bool {
    if name.len() > 2 && name[0] == '{' && name.last() == '}' {
        exists|o: Seq<char>| #[trigger]
            some_puts(before, name.subrange(1, name.len() - 1), o) && stands_for(
                o,
                before,
                around,
                file,
            )
    } else {
        stands_for(name, before, around, file)
    }
}

/// Whether a file is an input of a rule of the result.
pub open spec fn is_taken(made: Seq<RuleText>, file: Seq<char>) -> bool {
    exists|i: int| 0 <= i < made.len() && (#[trigger] made[i]).inputs.contains(file)
}

/// Whether a rule, after those before it, expands to some rules: to none where its
/// inputs came to nothing; to one for each file where it says `foreach`; else to one.
/// Their inputs are the files that its inputs stand for, all of them and nothing else.
pub open spec fn expands_to(
    rule: RuleText,
    before: Seq<RuleText>,
    made: Seq<RuleText>,
    around: Around,
) -> bool {
    &&& rule.had_inputs && rule.inputs.len() == 0 ==> made.len() == 0
    &&& !(rule.had_inputs && rule.inputs.len() == 0) ==> {
        &&& !rule.foreach ==> made.len() == 1
        &&& forall|file: Seq<char>|
            #![trigger is_taken(made, file)]
            is_taken(made, file) <==> exists|j: int|
                0 <= j < rule.inputs.len() && is_input(
                    #[trigger] rule.inputs[j],
                    before,
                    around,
                    file,
                )
        &&& forall|j: int|
            0 <= j < rule.order_only_inputs.len() && names_local_file(
                #[trigger] rule.order_only_inputs[j],
            ) ==> around.present.contains(rule.order_only_inputs[j]) || some_makes(
                before,
                rule.order_only_inputs[j],
            )
        &&& forall|j: int|
            0 <= j < rule.inputs.len() && names_local_file(#[trigger] rule.inputs[j])
                ==> around.present.contains(rule.inputs[j]) || some_makes(before, rule.inputs[j])
    }
    &&& forall|i: int| 0 <= i < made.len() ==> is_made_of(rule, #[trigger] made[i], around.dir_name)
    &&& forall|i: int, j: int|
        #![trigger made[i], made[j]]
        rule.foreach && 0 <= i < j < made.len() ==> made[i].inputs != made[j].inputs
}

/// Whether the rules of the result from a place on are those that some rules expand to,
/// one rule after the other.
pub open spec fn expand_in_order(
    out: Seq<RuleText>,
    at: int,
    rules: Seq<RuleText>,
    around: Around,
) -> bool
    decreases rules.len(),
{
    if rules.len() == 0 {
        at == out.len()
    } else {
        exists|n: int|
            at <= n <= out.len() && expands_to(
                rules[0],
                out.take(at),
                #[trigger] out.subrange(at, n),
                around,
            ) && expand_in_order(out, n, rules.drop_first(), around)
    }
}

// ------------------------------------------------ the state of an expansion

/// Whether the declared outputs and the bins of a state are those of its rules.
spec fn is_kept(s: Expanding) -> bool {
    &&& forall|o: Seq<char>| #[trigger] s.declared.contains(o) <==> some_makes(s.done, o)
    &&& forall|n: Seq<char>, o: Seq<char>| #[trigger]
        bin_files(s.bins, n).contains(o) <==> some_puts(s.done, n, o)
}

proof fn lemma_concat_contains(a: Seq<Seq<char>>, b: Seq<Seq<char>>, x: Seq<char>)
    ensures
        (a + b).contains(x) <==> a.contains(x) || b.contains(x),
{
    let all = a + b;
    if a.contains(x) {
        let i = choose|i: int| 0 <= i < a.len() && a[i] == x;
        assert(all[i] == x);
    }
    if b.contains(x) {
        let i = choose|i: int| 0 <= i < b.len() && b[i] == x;
        assert(all[a.len() + i] == x);
    }
    if all.contains(x) {
        let i = choose|i: int| 0 <= i < all.len() && all[i] == x;
        if i < a.len() {
            assert(a[i] == x);
        } else {
            assert(b[i - a.len()] == x);
        }
    }
}

proof fn lemma_one_more_makes(rules: Seq<RuleText>, r: RuleText, o: Seq<char>, n: Seq<char>)
    ensures
        some_makes(rules.push(r), o) <==> some_makes(rules, o) || r.outputs.contains(o),
        some_puts(rules.push(r), n, o) <==> some_puts(rules, n, o) || (r.bin == Some(n)
            && r.outputs.contains(o)),
{
    let all = rules.push(r);
    assert(all[rules.len() as int] == r);
    assert forall|b: int| 0 <= b < rules.len() implies all[b] == rules[b] by {}
    if some_makes(rules, o) {
        let b = choose|b: int| 0 <= b < rules.len() && (#[trigger] rules[b]).outputs.contains(o);
        assert(all[b].outputs.contains(o));
    }
    if some_puts(rules, n, o) {
        let b = choose|b: int|
            0 <= b < rules.len() && (#[trigger] rules[b]).bin == Some(n)
                && rules[b].outputs.contains(o);
        assert(all[b].bin == Some(n));
    }
    if some_makes(all, o) {
        let b = choose|b: int| 0 <= b < all.len() && (#[trigger] all[b]).outputs.contains(o);
        if b < rules.len() {
            assert(rules[b].outputs.contains(o));
        }
    }
    if some_puts(all, n, o) {
        let b = choose|b: int|
            0 <= b < all.len() && (#[trigger] all[b]).bin == Some(n) && all[b].outputs.contains(o);
        if b < rules.len() {
            assert(rules[b].bin == Some(n));
        }
    }
}

proof fn lemma_emit(
    s: Expanding,
    rule: RuleText,
    inputs: Seq<Seq<char>>,
    had_inputs: bool,
    dir_name: Seq<char>,
)
    requires
        is_kept(s),
        s.emit(rule, inputs, had_inputs, dir_name) is Ok,
        rule.foreach ==> inputs.len() == 1 && had_inputs,
        !rule.foreach ==> had_inputs == rule.had_inputs,
    ensures
        ({
            let t = s.emit(rule, inputs, had_inputs, dir_name)->Ok_0;
            &&& is_kept(t)
            &&& t.done == s.done.push(t.done.last())
            &&& t.done.last().inputs == inputs
            &&& is_made_of(rule, t.done.last(), dir_name)
        }),
{
    let t = s.emit(rule, inputs, had_inputs, dir_name)->Ok_0;
    let made = t.done.last();
    let outputs = outputs_for(rule.outputs, inputs);
    assert(t.done =~= s.done.push(made));
    assert(inputs_of(inputs) =~= Seq::new(made.inputs.len(), |i: int| input_of(made.inputs[i])));
    assert forall|o: Seq<char>| #[trigger] t.declared.contains(o) <==> some_makes(t.done, o) by {
        lemma_concat_contains(s.declared, outputs, o);
        lemma_one_more_makes(s.done, made, o, o);
        assert(s.declared.contains(o) <==> some_makes(s.done, o));
    }
    assert forall|n: Seq<char>, o: Seq<char>| #[trigger]
        bin_files(t.bins, n).contains(o) <==> some_puts(t.done, n, o) by {
        lemma_one_more_makes(s.done, made, o, n);
        assert(bin_files(s.bins, n).contains(o) <==> some_puts(s.done, n, o));
        if rule.bin == Some(n) {
            lemma_concat_contains(bin_files(s.bins, n), outputs, o);
        }
    }
}

/// What a rule adds for each of some files.
spec fn adds_each(
    rule: RuleText,
    s: Expanding,
    t: Expanding,
    files: Seq<Seq<char>>,
    dir_name: Seq<char>,
) -> bool {
    &&& t.done.len() == s.done.len() + files.len()
    &&& t.done.take(s.done.len() as int) == s.done
    &&& forall|i: int|
        #![trigger t.done[s.done.len() + i]]
        0 <= i < files.len() ==> {
            &&& t.done[s.done.len() + i].inputs == seq![files[i]]
            &&& is_made_of(rule, t.done[s.done.len() + i], dir_name)
        }
}

proof fn lemma_emit_each(
    s: Expanding,
    rule: RuleText,
    files: Seq<Seq<char>>,
    dir_name: Seq<char>,
)
    requires
        is_kept(s),
        rule.foreach,
        s.emit_each(rule, files, dir_name) is Ok,
    ensures
        is_kept(s.emit_each(rule, files, dir_name)->Ok_0),
        adds_each(rule, s, s.emit_each(rule, files, dir_name)->Ok_0, files, dir_name),
    decreases files.len(),
{
    let t = s.emit_each(rule, files, dir_name)->Ok_0;
    if files.len() == 0 {
        assert(t.done.take(s.done.len() as int) =~= s.done);
    } else {
        let rest = files.drop_first();
        let u = s.emit(rule, seq![files[0]], true, dir_name)->Ok_0;
        lemma_emit(s, rule, seq![files[0]], true, dir_name);
        lemma_emit_each(u, rule, rest, dir_name);
        let n = s.done.len() as int;
        assert(t.done.take(n) =~= s.done) by {
            assert forall|i: int| 0 <= i < n implies t.done[i] == s.done[i] by {
                assert(t.done.take(n + 1)[i] == u.done[i]);
            }
        }
        assert forall|i: int| #![trigger t.done[s.done.len() + i]] 0 <= i < files.len() implies {
            &&& t.done[s.done.len() + i].inputs == seq![files[i]]
            &&& is_made_of(rule, t.done[s.done.len() + i], dir_name)
        } by {
            if i == 0 {
                assert(t.done.take(n + 1)[n] == u.done[n]);
            } else {
                assert(rest[i - 1] == files[i]);
                assert(t.done[u.done.len() + (i - 1)].inputs == seq![rest[i - 1]]);
            }
        }
    }
}

// ------------------------------------------------ which files are found

proof fn lemma_open_bins(
    inputs: Seq<Seq<char>>,
    bins: Map<Seq<char>, Seq<Seq<char>>>,
    x: Seq<char>,
)
    ensures
        open_bins(inputs, bins).contains(x) <==> exists|j: int|
            0 <= j < inputs.len() && opens_to(#[trigger] inputs[j], bins, x),
    decreases inputs.len(),
{
    let all = open_bins(inputs, bins);
    if inputs.len() > 0 {
        let rest = inputs.drop_first();
        lemma_open_bins(rest, bins, x);
        let s = inputs[0];
        let first = if is_bin(s) {
            bin_files(bins, s.subrange(1, s.len() - 1))
        } else {
            seq![s]
        };
        lemma_concat_contains(first, open_bins(rest, bins), x);
        if !is_bin(s) {
            assert(first[0] == s);
        }
        assert(first.contains(x) <==> opens_to(s, bins, x));
        if exists|j: int| 0 <= j < rest.len() && opens_to(#[trigger] rest[j], bins, x) {
            let j = choose|j: int| 0 <= j < rest.len() && opens_to(#[trigger] rest[j], bins, x);
            assert(inputs[j + 1] == rest[j]);
        }
        if exists|j: int| 0 <= j < inputs.len() && opens_to(#[trigger] inputs[j], bins, x) {
            let j = choose|j: int| 0 <= j < inputs.len() && opens_to(#[trigger] inputs[j], bins, x);
            if j > 0 {
                assert(rest[j - 1] == inputs[j]);
            }
        }
    }
}

spec fn opens_to(name: Seq<char>, bins: Map<Seq<char>, Seq<Seq<char>>>, x: Seq<char>) -> bool {
    if is_bin(name) {
        bin_files(bins, name.subrange(1, name.len() - 1)).contains(x)
    } else {
        x == name
    }
}

proof fn lemma_with_declared(
    found: Seq<Seq<char>>,
    declared: Seq<Seq<char>>,
    pattern: Seq<char>,
    x: Seq<char>,
)
    ensures
        with_declared(found, declared, pattern).contains(x) <==> found.contains(x) || (
        declared.contains(x) && pattern_names(pattern, x)),
    decreases declared.len(),
{
    if declared.len() > 0 {
        let name = declared[0];
        let next = if pattern_names(pattern, name) && !found.contains(name) {
            found.push(name)
        } else {
            found
        };
        let rest = declared.drop_first();
        lemma_with_declared(next, rest, pattern, x);
        lemma_concat_contains(found, seq![name], x);
        assert(found.push(name) =~= found + seq![name]);
        assert(seq![name].contains(x) <==> x == name) by {
            assert(seq![name][0] == name);
        }
        lemma_concat_contains(seq![name], rest, x);
        assert(declared =~= seq![name] + rest);
    }
}

proof fn lemma_sort_contains(s: Seq<Seq<char>>, x: Seq<char>)
    ensures
        sort(s).contains(x) <==> s.contains(x),
{
    sort_is_sorted(s);
    s.to_multiset_ensures();
    sort(s).to_multiset_ensures();
    assert(s.contains(x) <==> s.to_multiset().count(x) > 0);
    assert(sort(s).contains(x) <==> sort(s).to_multiset().count(x) > 0);
}

/// Whether a pattern or name picks a file.
spec fn picks(
    p: Seq<char>,
    listings: Map<Seq<char>, Listing>,
    declared: Seq<Seq<char>>,
    x: Seq<char>,
) -> bool {
    if !has_glob(p) {
        x == p
    } else {
        ||| {
            &&& listings.dom().contains(dir_part(p))
            &&& listing_text(listings[dir_part(p)]) matches Ok(names) && is_match(
                dir_part(p),
                file_part(p),
                names,
                x,
            )
        }
        ||| declared.contains(x) && pattern_names(p, x)
    }
}

proof fn lemma_expand_patterns(
    found: Seq<Seq<char>>,
    patterns: Seq<Seq<char>>,
    listings: Map<Seq<char>, Listing>,
    declared: Seq<Seq<char>>,
    x: Seq<char>,
)
    requires
        expand_patterns(found, patterns, listings, declared) is Ok,
    ensures
        expand_patterns(found, patterns, listings, declared)->Ok_0.contains(x) <==> found.contains(
            x,
        ) || exists|j: int|
            0 <= j < patterns.len() && picks(#[trigger] patterns[j], listings, declared, x),
    decreases patterns.len(),
{
    if patterns.len() > 0 {
        let p = patterns[0];
        let rest = patterns.drop_first();
        let one = seq![p];
        let next = if has_glob(p) {
            patterns_are_expanded_in_order(Seq::empty(), one, listings);
            a_pattern_gives_what_it_matches(p, listings, x);
            let files = expand_all(one, listings)->Ok_0;
            assert(expand_all(one, listings) == expand_one(p, listings));
            let full = with_declared(files, declared, p);
            lemma_with_declared(files, declared, p, x);
            lemma_sort_contains(full, x);
            lemma_concat_contains(found, sort(full), x);
            found + sort(full)
        } else {
            lemma_concat_contains(found, one, x);
            assert(found.push(p) =~= found + one);
            assert(one.contains(x) <==> x == p) by {
                assert(one[0] == p);
            }
            found.push(p)
        };
        assert(next.contains(x) <==> found.contains(x) || picks(p, listings, declared, x));
        lemma_expand_patterns(next, rest, listings, declared, x);
        if exists|j: int| 0 <= j < rest.len() && picks(#[trigger] rest[j], listings, declared, x) {
            let j = choose|j: int|
                0 <= j < rest.len() && picks(#[trigger] rest[j], listings, declared, x);
            assert(patterns[j + 1] == rest[j]);
        }
        if exists|j: int|
            0 <= j < patterns.len() && picks(#[trigger] patterns[j], listings, declared, x) {
            let j = choose|j: int|
                0 <= j < patterns.len() && picks(#[trigger] patterns[j], listings, declared, x);
            if j > 0 {
                assert(rest[j - 1] == patterns[j]);
            }
        }
    }
}

proof fn lemma_without_repeats(kept: Seq<Seq<char>>, files: Seq<Seq<char>>, x: Seq<char>)
    requires
        kept.no_duplicates(),
    ensures
        without_repeats(kept, files).contains(x) <==> kept.contains(x) || files.contains(x),
        without_repeats(kept, files).no_duplicates(),
    decreases files.len(),
{
    if files.len() > 0 {
        let f = files[0];
        let rest = files.drop_first();
        let next = if kept.contains(f) {
            kept
        } else {
            kept.push(f)
        };
        lemma_without_repeats(next, rest, x);
        lemma_concat_contains(kept, seq![f], x);
        assert(kept.push(f) =~= kept + seq![f]);
        assert(seq![f].contains(x) <==> x == f) by {
            assert(seq![f][0] == f);
        }
        lemma_concat_contains(seq![f], rest, x);
        assert(files =~= seq![f] + rest);
    }
}

proof fn lemma_first_missing(
    names: Seq<Seq<char>>,
    present: Set<Seq<char>>,
    declared: Seq<Seq<char>>,
    j: int,
)
    requires
        first_missing(names, present, declared) is None,
        0 <= j < names.len(),
        names_local_file(names[j]),
    ensures
        present.contains(names[j]) || declared.contains(names[j]),
    decreases names.len(),
{
    if j > 0 {
        assert(names.drop_first()[j - 1] == names[j]);
        lemma_first_missing(names.drop_first(), present, declared, j - 1);
    }
}

// ------------------------------------------------ one rule

proof fn lemma_files_found(s: Expanding, rule: RuleText, around: Around, x: Seq<char>)
    requires
        is_kept(s),
        expand_patterns(
            Seq::empty(),
            open_bins(rule.inputs, s.bins),
            around.listings,
            s.declared,
        ) is Ok,
    ensures
        expand_patterns(
            Seq::empty(),
            open_bins(rule.inputs, s.bins),
            around.listings,
            s.declared,
        )->Ok_0.contains(x) <==> exists|j: int|
            0 <= j < rule.inputs.len() && is_input(#[trigger] rule.inputs[j], s.done, around, x),
{
    let inputs = open_bins(rule.inputs, s.bins);
    lemma_expand_patterns(Seq::empty(), inputs, around.listings, s.declared, x);
    assert forall|p: Seq<char>| #[trigger] picks(p, around.listings, s.declared, x) <==> stands_for(
        p,
        s.done,
        around,
        x,
    ) by {
        assert(s.declared.contains(x) <==> some_makes(s.done, x));
    }
    if exists|k: int|
        0 <= k < inputs.len() && picks(#[trigger] inputs[k], around.listings, s.declared, x) {
        let k = choose|k: int|
            0 <= k < inputs.len() && picks(#[trigger] inputs[k], around.listings, s.declared, x);
        let o = inputs[k];
        assert(inputs.contains(o));
        lemma_open_bins(rule.inputs, s.bins, o);
        let j = choose|j: int|
            0 <= j < rule.inputs.len() && opens_to(#[trigger] rule.inputs[j], s.bins, o);
        let name = rule.inputs[j];
        if is_bin(name) {
            let n = name.subrange(1, name.len() - 1);
            assert(bin_files(s.bins, n).contains(o) <==> some_puts(s.done, n, o));
        }
        assert(is_input(rule.inputs[j], s.done, around, x));
    }
    if exists|j: int|
        0 <= j < rule.inputs.len() && is_input(#[trigger] rule.inputs[j], s.done, around, x) {
        let j = choose|j: int|
            0 <= j < rule.inputs.len() && is_input(#[trigger] rule.inputs[j], s.done, around, x);
        let name = rule.inputs[j];
        let o = if is_bin(name) {
            let n = name.subrange(1, name.len() - 1);
            let o = choose|o: Seq<char>| #[trigger]
                some_puts(s.done, n, o) && stands_for(o, s.done, around, x);
            assert(bin_files(s.bins, n).contains(o) <==> some_puts(s.done, n, o));
            o
        } else {
            name
        };
        assert(opens_to(rule.inputs[j], s.bins, o));
        lemma_open_bins(rule.inputs, s.bins, o);
        let k = choose|k: int| 0 <= k < inputs.len() && inputs[k] == o;
        assert(picks(inputs[k], around.listings, s.declared, x));
    }
}

proof fn lemma_present(s: Expanding, rule: RuleText, around: Around)
    requires
        is_kept(s),
        first_missing(open_bins(rule.inputs, s.bins), around.present, s.declared) is None,
        first_missing(rule.order_only_inputs, around.present, s.declared) is None,
    ensures
        forall|j: int|
            0 <= j < rule.order_only_inputs.len() && names_local_file(
                #[trigger] rule.order_only_inputs[j],
            ) ==> around.present.contains(rule.order_only_inputs[j]) || some_makes(
                s.done,
                rule.order_only_inputs[j],
            ),
        forall|j: int|
            0 <= j < rule.inputs.len() && names_local_file(#[trigger] rule.inputs[j])
                ==> around.present.contains(rule.inputs[j]) || some_makes(s.done, rule.inputs[j]),
{
    assert forall|j: int|
        0 <= j < rule.order_only_inputs.len() && names_local_file(
            #[trigger] rule.order_only_inputs[j],
        ) implies around.present.contains(rule.order_only_inputs[j]) || some_makes(
        s.done,
        rule.order_only_inputs[j],
    ) by {
        lemma_first_missing(rule.order_only_inputs, around.present, s.declared, j);
        assert(s.declared.contains(rule.order_only_inputs[j]) <==> some_makes(
            s.done,
            rule.order_only_inputs[j],
        ));
    }
    let inputs = open_bins(rule.inputs, s.bins);
    assert forall|j: int|
        0 <= j < rule.inputs.len() && names_local_file(#[trigger] rule.inputs[j]) implies
        around.present.contains(rule.inputs[j]) || some_makes(s.done, rule.inputs[j]) by {
        let x = rule.inputs[j];
        lemma_open_bins(rule.inputs, s.bins, x);
        assert(!is_bin(x));
        assert(opens_to(rule.inputs[j], s.bins, x));
        let k = choose|k: int| 0 <= k < inputs.len() && inputs[k] == x;
        lemma_first_missing(inputs, around.present, s.declared, k);
        assert(s.declared.contains(x) <==> some_makes(s.done, x));
    }
}

proof fn lemma_rule(s: Expanding, rule: RuleText, around: Around)
    requires
        is_kept(s),
        s.rule(rule, around) is Ok,
    ensures
        ({
            let t = s.rule(rule, around)->Ok_0;
            let n = s.done.len() as int;
            &&& is_kept(t)
            &&& n <= t.done.len()
            &&& t.done.take(n) == s.done
            &&& expands_to(rule, s.done, t.done.skip(n), around)
        }),
{
    let t = s.rule(rule, around)->Ok_0;
    let n = s.done.len() as int;
    let made = t.done.skip(n);
    if rule.had_inputs && rule.inputs.len() == 0 {
        assert(t.done.take(n) =~= s.done);
    } else {
        let inputs = open_bins(rule.inputs, s.bins);
        let found = expand_patterns(Seq::empty(), inputs, around.listings, s.declared)->Ok_0;
        let files = without_repeats(Seq::empty(), found);
        lemma_present(s, rule, around);
        assert forall|x: Seq<char>| #[trigger] files.contains(x) <==> exists|j: int|
            0 <= j < rule.inputs.len() && is_input(#[trigger] rule.inputs[j], s.done, around, x) by {
            lemma_files_found(s, rule, around, x);
            lemma_without_repeats(Seq::empty(), found, x);
        }
        lemma_without_repeats(Seq::empty(), found, Seq::empty());
        if rule.foreach {
            lemma_emit_each(s, rule, files, around.dir_name);
            assert forall|i: int| 0 <= i < made.len() implies (#[trigger] made[i]).inputs == seq![
                files[i],
            ] && is_made_of(rule, made[i], around.dir_name) by {
                assert(made[i] == t.done[s.done.len() + i]);
            }
            assert forall|x: Seq<char>| #[trigger] is_taken(made, x) <==> files.contains(x) by {
                if is_taken(made, x) {
                    let i = choose|i: int|
                        0 <= i < made.len() && (#[trigger] made[i]).inputs.contains(x);
                    assert(files[i] == x);
                }
                if files.contains(x) {
                    let i = choose|i: int| 0 <= i < files.len() && files[i] == x;
                    assert(made[i].inputs[0] == x);
                    assert(made[i].inputs.contains(x));
                }
            }
            assert forall|i: int, j: int|
                #![trigger made[i], made[j]]
                rule.foreach && 0 <= i < j < made.len() implies made[i].inputs != made[j].inputs by {
                assert(made[i].inputs[0] == files[i]);
                assert(made[j].inputs[0] == files[j]);
            }
        } else {
            lemma_emit(s, rule, files, rule.had_inputs, around.dir_name);
            assert(made =~= seq![t.done.last()]);
            assert(t.done.take(n) =~= s.done);
            assert forall|x: Seq<char>| #[trigger] is_taken(made, x) <==> files.contains(x) by {
                assert(made[0].inputs == files);
                if files.contains(x) {
                    assert(made[0].inputs.contains(x));
                }
            }
        }
        assert forall|file: Seq<char>| #[trigger] is_taken(made, file) <==> exists|j: int|
            0 <= j < rule.inputs.len() && is_input(
                #[trigger] rule.inputs[j],
                s.done,
                around,
                file,
            ) by {
            assert(is_taken(made, file) <==> files.contains(file));
        }
    }
}

proof fn lemma_rules(s: Expanding, rules: Seq<RuleText>, around: Around)
    requires
        is_kept(s),
        s.rules(rules, around) is Ok,
    ensures
        ({
            let out = s.rules(rules, around)->Ok_0.done;
            let n = s.done.len() as int;
            &&& n <= out.len()
            &&& out.take(n) == s.done
            &&& expand_in_order(out, n, rules, around)
        }),
    decreases rules.len(),
{
    let out = s.rules(rules, around)->Ok_0.done;
    let n = s.done.len() as int;
    if rules.len() == 0 {
        assert(out.take(n) =~= s.done);
    } else {
        let t = s.rule(rules[0], around)->Ok_0;
        lemma_rule(s, rules[0], around);
        lemma_rules(t, rules.drop_first(), around);
        let m = t.done.len() as int;
        assert(out.take(m) == t.done);
        assert(out.take(n) =~= t.done.take(n));
        assert(out.subrange(n, m) =~= t.done.skip(n));
        assert(n <= m <= out.len() && expands_to(
            rules[0],
            out.take(n),
            out.subrange(n, m),
            around,
        ) && expand_in_order(out, m, rules.drop_first(), around));
    }
}

// ------------------------------------------------ the laws

/// Rules are expanded one after the other. Each gives no rule, one rule or one for each
/// of its files; these have the files that its inputs stand for, and everything else
/// that it says.
pub proof fn rules_are_expanded_in_order(rules: Seq<RuleText>, around: Around)
    ensures
        expanded_rules(rules, around) matches Ok(out) ==> expand_in_order(out, 0, rules, around),
{
    if let Ok(out) = expanded_rules(rules, around) {
        let start = Expanding { done: Seq::empty(), declared: Seq::empty(), bins: Map::empty() };
        assert(is_kept(start)) by {
            assert forall|o: Seq<char>| #[trigger] start.declared.contains(o) <==> some_makes(
                start.done,
                o,
            ) by {}
            assert forall|n: Seq<char>, o: Seq<char>| #[trigger]
                bin_files(start.bins, n).contains(o) <==> some_puts(start.done, n, o) by {}
        }
        lemma_rules(start, rules, around);
    }
}

proof fn lemma_origin(out: Seq<RuleText>, at: int, rules: Seq<RuleText>, around: Around, i: int)
    requires
        expand_in_order(out, at, rules, around),
        0 <= at <= i < out.len(),
    ensures
        exists|k: int| 0 <= k < rules.len() && is_made_of(#[trigger] rules[k], out[i], around.dir_name),
    decreases rules.len(),
{
    let rest = rules.drop_first();
    let n = choose|n: int|
        at <= n <= out.len() && expands_to(
            rules[0],
            out.take(at),
            #[trigger] out.subrange(at, n),
            around,
        ) && expand_in_order(out, n, rest, around);
    if i < n {
        assert(out.subrange(at, n)[i - at] == out[i]);
        assert(is_made_of(rules[0], out[i], around.dir_name));
    } else {
        lemma_origin(out, n, rest, around, i);
        let k = choose|k: int|
            0 <= k < rest.len() && is_made_of(#[trigger] rest[k], out[i], around.dir_name);
        assert(rules[k + 1] == rest[k]);
    }
}

/// Every rule of the result is made of one of the rules, and has its order-only inputs,
/// its extra outputs, its flags, its line number and its bin.
pub proof fn every_rule_keeps_its_parts(rules: Seq<RuleText>, around: Around)
    ensures
        expanded_rules(rules, around) matches Ok(out) ==> forall|i: int|
            0 <= i < out.len() ==> exists|k: int|
                0 <= k < rules.len() && is_made_of(
                    #[trigger] rules[k],
                    #[trigger] out[i],
                    around.dir_name,
                ),
{
    rules_are_expanded_in_order(rules, around);
    if let Ok(out) = expanded_rules(rules, around) {
        assert forall|i: int| 0 <= i < out.len() implies exists|k: int|
            0 <= k < rules.len() && is_made_of(
                #[trigger] rules[k],
                #[trigger] out[i],
                around.dir_name,
            ) by {
            lemma_origin(out, 0, rules, around, i);
        }
    }
}

// ------------------------------------------------ rules that are accepted

/// A rule of plain names: it stands for one command, its inputs are neither patterns nor
/// bins, its command and outputs hold no `%`, and its outputs are not hidden.
pub open spec fn names_plain_files(r: RuleText) -> bool {
    &&& !r.foreach
    &&& r.inputs.len() > 0 || !r.had_inputs
    &&& forall|j: int| 0 <= j < r.inputs.len() ==> !has_glob(#[trigger] r.inputs[j]) && !is_bin(
        r.inputs[j],
    )
    &&& !r.command.command.contains('%')
    &&& forall|j: int| 0 <= j < r.outputs.len() ==> !(#[trigger] r.outputs[j]).contains('%')
        && !has_hidden_part(r.outputs[j])
    &&& r.outputs.no_duplicates()
}

/// Whether every one of some names that stands for a file of the directory is there, or
/// is an output of one of some rules.
pub open spec fn are_there(
    names: Seq<Seq<char>>,
    before: Seq<RuleText>,
    around: Around,
) -> bool {
    forall|j: int|
        0 <= j < names.len() && names_local_file(#[trigger] names[j]) ==> around.present.contains(
            names[j],
        ) || some_makes(before, names[j])
}

proof fn lemma_no_missing(
    names: Seq<Seq<char>>,
    present: Set<Seq<char>>,
    declared: Seq<Seq<char>>,
)
    requires
        forall|j: int|
            0 <= j < names.len() && names_local_file(#[trigger] names[j]) ==> present.contains(
                names[j],
            ) || declared.contains(names[j]),
    ensures
        first_missing(names, present, declared) is None,
    decreases names.len(),
{
    if names.len() > 0 {
        let rest = names.drop_first();
        assert forall|j: int| 0 <= j < rest.len() && names_local_file(#[trigger] rest[j]) implies
            present.contains(rest[j]) || declared.contains(rest[j]) by {
            assert(rest[j] == names[j + 1]);
        }
        assert(names_local_file(names[0]) ==> present.contains(names[0]) || declared.contains(
            names[0],
        ));
        lemma_no_missing(rest, present, declared);
    }
}

proof fn lemma_plain_inputs(
    found: Seq<Seq<char>>,
    inputs: Seq<Seq<char>>,
    bins: Map<Seq<char>, Seq<Seq<char>>>,
    listings: Map<Seq<char>, Listing>,
    declared: Seq<Seq<char>>,
)
    requires
        forall|j: int| 0 <= j < inputs.len() ==> !has_glob(#[trigger] inputs[j]) && !is_bin(
            inputs[j],
        ),
    ensures
        open_bins(inputs, bins) == inputs,
        expand_patterns(found, inputs, listings, declared) is Ok,
    decreases inputs.len(),
{
    if inputs.len() > 0 {
        let rest = inputs.drop_first();
        assert forall|j: int| 0 <= j < rest.len() implies !has_glob(#[trigger] rest[j]) && !is_bin(
            rest[j],
        ) by {
            assert(rest[j] == inputs[j + 1]);
        }
        lemma_plain_inputs(found.push(inputs[0]), rest, bins, listings, declared);
        assert(open_bins(inputs, bins) =~= inputs);
    } else {
        assert(open_bins(inputs, bins) =~= inputs);
    }
}

proof fn lemma_no_flag(s: Seq<char>, suffix: Seq<char>)
    requires
        !s.contains('%'),
    ensures
        !has_flag(s, suffix),
    decreases s.len(),
{
    if s.len() > 0 {
        assert(s.contains(s[0]));
        let rest = s.skip(1);
        assert(!rest.contains('%')) by {
            if rest.contains('%') {
                let i = choose|i: int| 0 <= i < rest.len() && rest[i] == '%';
                assert(s[i + 1] == '%');
            }
        }
        lemma_no_flag(rest, suffix);
    }
}

proof fn lemma_not_hidden(outputs: Seq<Seq<char>>)
    requires
        forall|j: int| 0 <= j < outputs.len() ==> !has_hidden_part(#[trigger] outputs[j]),
    ensures
        first_hidden(outputs) is None,
    decreases outputs.len(),
{
    if outputs.len() > 0 {
        let rest = outputs.drop_first();
        assert forall|j: int| 0 <= j < rest.len() implies !has_hidden_part(#[trigger] rest[j]) by {
            assert(rest[j] == outputs[j + 1]);
        }
        assert(!has_hidden_part(outputs[0]));
        lemma_not_hidden(rest);
    }
}

proof fn lemma_plain_outputs(patterns: Seq<Seq<char>>, inputs: Seq<Seq<char>>)
    requires
        forall|j: int| 0 <= j < patterns.len() ==> !(#[trigger] patterns[j]).contains('%'),
    ensures
        outputs_for(patterns, inputs) == patterns,
{
    if inputs.len() > 0 {
        let input = input_of(inputs[0]);
        assert forall|j: int| 0 <= j < patterns.len() implies output_text(patterns[j], input)
            == patterns[j] by {
            substitute_without_flags(
                patterns[j],
                |c: char| pattern_value(c, input),
            );
        }
        assert(outputs_for(patterns, inputs) =~= patterns);
    }
}

proof fn lemma_plain_rule(s: Expanding, rule: RuleText, around: Around)
    requires
        is_kept(s),
        names_plain_files(rule),
        are_there(rule.inputs, s.done, around),
        are_there(rule.order_only_inputs, s.done, around),
    ensures
        ({
            let t = s.rule(rule, around);
            &&& t is Ok
            &&& t->Ok_0.done.len() == s.done.len() + 1
            &&& t->Ok_0.done.drop_last() == s.done
            &&& t->Ok_0.done.last().outputs == rule.outputs
        }),
{
    lemma_plain_inputs(Seq::empty(), rule.inputs, s.bins, around.listings, s.declared);
    assert forall|o: Seq<char>| some_makes(s.done, o) implies #[trigger] s.declared.contains(o) by {}
    assert forall|j: int|
        0 <= j < rule.inputs.len() && names_local_file(#[trigger] rule.inputs[j]) implies
        around.present.contains(rule.inputs[j]) || s.declared.contains(rule.inputs[j]) by {
        assert(s.declared.contains(rule.inputs[j]) <==> some_makes(s.done, rule.inputs[j]));
    }
    assert forall|j: int|
        0 <= j < rule.order_only_inputs.len() && names_local_file(
            #[trigger] rule.order_only_inputs[j],
        ) implies around.present.contains(rule.order_only_inputs[j]) || s.declared.contains(
        rule.order_only_inputs[j],
    ) by {
        assert(s.declared.contains(rule.order_only_inputs[j]) <==> some_makes(
            s.done,
            rule.order_only_inputs[j],
        ));
    }
    lemma_no_missing(rule.inputs, around.present, s.declared);
    lemma_no_missing(rule.order_only_inputs, around.present, s.declared);
    let found = expand_patterns(Seq::empty(), rule.inputs, around.listings, s.declared)->Ok_0;
    let files = without_repeats(Seq::empty(), found);
    let cmd = rule.command.command;
    lemma_no_flag(cmd, "%f"@.skip(1));
    lemma_no_flag(cmd, "%b"@.skip(1));
    lemma_no_flag(cmd, "%B"@.skip(1));
    lemma_no_flag(cmd, "%i"@.skip(1));
    assert(flag_error(rule, files) is None);
    lemma_plain_outputs(rule.outputs, files);
    lemma_not_hidden(rule.outputs);
    let t = s.rule(rule, around)->Ok_0;
    assert(t.done.drop_last() =~= s.done);
}

proof fn lemma_plain_rules(
    s: Expanding,
    all: Seq<RuleText>,
    around: Around,
    k: int,
)
    requires
        0 <= k <= all.len(),
        is_kept(s),
        s.done.len() == k,
        forall|i: int| 0 <= i < k ==> (#[trigger] s.done[i]).outputs == all[i].outputs,
        forall|i: int| 0 <= i < all.len() ==> {
            &&& names_plain_files(#[trigger] all[i])
            &&& are_there(all[i].inputs, all.take(i), around)
            &&& are_there(all[i].order_only_inputs, all.take(i), around)
        },
    ensures
        ({
            let t = s.rules(all.skip(k), around);
            &&& t is Ok
            &&& t->Ok_0.done.len() == all.len()
            &&& forall|i: int|
                0 <= i < all.len() ==> (#[trigger] t->Ok_0.done[i]).outputs == all[i].outputs
        }),
    decreases all.len() - k,
{
    let rest = all.skip(k);
    if k < all.len() {
        let rule = all[k];
        assert(rest[0] == rule);
        assert(rest.drop_first() =~= all.skip(k + 1));
        assert forall|o: Seq<char>| #[trigger] some_makes(all.take(k), o) implies some_makes(
            s.done,
            o,
        ) by {
            let b = choose|b: int|
                0 <= b < all.take(k).len() && (#[trigger] all.take(k)[b]).outputs.contains(o);
            assert(s.done[b].outputs.contains(o));
        }
        lemma_plain_rule(s, rule, around);
        let t = s.rule(rule, around)->Ok_0;
        lemma_rule(s, rule, around);
        assert forall|i: int| 0 <= i < k + 1 implies (#[trigger] t.done[i]).outputs
            == all[i].outputs by {
            if i < k {
                assert(t.done.drop_last()[i] == t.done[i]);
                assert(s.done[i].outputs == all[i].outputs);
            }
        }
        lemma_plain_rules(t, all, around, k + 1);
    } else {
        assert(rest.len() == 0);
    }
}

proof fn lemma_none_repeated(seen: Seq<Seq<char>>, outputs: Seq<Seq<char>>)
    requires
        outputs.no_duplicates(),
        forall|k: int| 0 <= k < outputs.len() ==> !seen.contains(#[trigger] outputs[k]),
    ensures
        first_repeated(seen, outputs) is None,
    decreases outputs.len(),
{
    if outputs.len() > 0 {
        let rest = outputs.drop_first();
        let more = seen.push(outputs[0]);
        assert forall|k: int| 0 <= k < rest.len() implies !more.contains(#[trigger] rest[k]) by {
            assert(rest[k] == outputs[k + 1]);
            if more.contains(rest[k]) {
                let i = choose|i: int| 0 <= i < more.len() && more[i] == rest[k];
                if i < seen.len() {
                    assert(seen[i] == outputs[k + 1]);
                }
            }
        }
        assert(!seen.contains(outputs[0]));
        lemma_none_repeated(more, rest);
    }
}

proof fn lemma_no_rule_repeats(rules: Seq<RuleText>)
    requires
        forall|i: int| 0 <= i < rules.len() ==> (#[trigger] rules[i]).outputs.no_duplicates(),
    ensures
        repeated_output(rules) is None,
    decreases rules.len(),
{
    if rules.len() > 0 {
        let rest = rules.drop_first();
        assert forall|i: int| 0 <= i < rest.len() implies (
        #[trigger] rest[i]).outputs.no_duplicates() by {
            assert(rest[i] == rules[i + 1]);
        }
        lemma_none_repeated(Seq::empty(), rules[0].outputs);
        lemma_no_rule_repeats(rest);
    }
}

proof fn lemma_claim(
    owners: Map<Seq<char>, Seq<char>>,
    command: Seq<char>,
    outputs: Seq<Seq<char>>,
)
    requires
        forall|k: int| 0 <= k < outputs.len() ==> !owners.dom().contains(#[trigger] outputs[k]),
        outputs.no_duplicates(),
    ensures
        claim(owners, command, outputs) is Ok,
        forall|o: Seq<char>| #[trigger]
            claim(owners, command, outputs)->Ok_0.dom().contains(o) ==> owners.dom().contains(o)
                || outputs.contains(o),
    decreases outputs.len(),
{
    if outputs.len() > 0 {
        let next = owners.insert(outputs[0], command);
        let rest = outputs.drop_first();
        assert(!owners.dom().contains(outputs[0]));
        assert forall|k: int| 0 <= k < rest.len() implies !next.dom().contains(
            #[trigger] rest[k],
        ) by {
            assert(rest[k] == outputs[k + 1]);
        }
        lemma_claim(next, command, rest);
        assert forall|o: Seq<char>| #[trigger]
            claim(owners, command, outputs)->Ok_0.dom().contains(o) implies owners.dom().contains(o)
            || outputs.contains(o) by {
            if rest.contains(o) {
                let i = choose|i: int| 0 <= i < rest.len() && rest[i] == o;
                assert(outputs[i + 1] == o);
            }
            if o == outputs[0] {
                assert(outputs.contains(outputs[0]));
            }
        }
    }
}

proof fn lemma_claim_all(owners: Map<Seq<char>, Seq<char>>, rules: Seq<RuleText>)
    requires
        forall|i: int| 0 <= i < rules.len() ==> (#[trigger] rules[i]).outputs.no_duplicates(),
        forall|i: int, o: Seq<char>|
            #![trigger rules[i].outputs.contains(o)]
            0 <= i < rules.len() && rules[i].outputs.contains(o) ==> !owners.dom().contains(o),
        forall|i: int, j: int, o: Seq<char>|
            #![trigger rules[i].outputs.contains(o), rules[j].outputs.contains(o)]
            0 <= i < j < rules.len() && rules[i].outputs.contains(o)
                ==> !rules[j].outputs.contains(o),
    ensures
        claim_all(owners, rules) is None,
    decreases rules.len(),
{
    if rules.len() > 0 {
        let r = rules[0];
        let rest = rules.drop_first();
        assert forall|k: int| 0 <= k < r.outputs.len() implies !owners.dom().contains(
            #[trigger] r.outputs[k],
        ) by {
            assert(rules[0].outputs.contains(r.outputs[k]));
        }
        lemma_claim(owners, r.command.command, r.outputs);
        let next = claim(owners, r.command.command, r.outputs)->Ok_0;
        assert forall|i: int| 0 <= i < rest.len() implies (
        #[trigger] rest[i]).outputs.no_duplicates() by {
            assert(rest[i] == rules[i + 1]);
        }
        assert forall|i: int, o: Seq<char>|
            #![trigger rest[i].outputs.contains(o)]
            0 <= i < rest.len() && rest[i].outputs.contains(o) implies !next.dom().contains(o) by {
            assert(rules[i + 1].outputs.contains(o));
            if rules[0].outputs.contains(o) {
                assert(!rules[i + 1].outputs.contains(o));
            }
        }
        assert forall|i: int, j: int, o: Seq<char>|
            #![trigger rest[i].outputs.contains(o), rest[j].outputs.contains(o)]
            0 <= i < j < rest.len() && rest[i].outputs.contains(o) implies !rest[j].outputs.contains(
            o,
        ) by {
            assert(rules[i + 1].outputs.contains(o));
            assert(rules[j + 1] == rest[j]);
            if rest[j].outputs.contains(o) {
                assert(rules[j + 1].outputs.contains(o));
            }
        }
        lemma_claim_all(next, rest);
    }
}

/// Rules of plain names, each of whose files is there or is made by a rule before, and no
/// two of which make the same file, are accepted: there is one rule for each.
pub proof fn plain_rules_are_accepted(rules: Seq<RuleText>, around: Around)
    requires
        forall|i: int| 0 <= i < rules.len() ==> {
            &&& names_plain_files(#[trigger] rules[i])
            &&& are_there(rules[i].inputs, rules.take(i), around)
            &&& are_there(rules[i].order_only_inputs, rules.take(i), around)
        },
        forall|i: int, j: int, o: Seq<char>|
            #![trigger rules[i].outputs.contains(o), rules[j].outputs.contains(o)]
            0 <= i < j < rules.len() && rules[i].outputs.contains(o)
                ==> !rules[j].outputs.contains(o),
    ensures
        expanded_rules(rules, around) matches Ok(out) && out.len() == rules.len() && forall|i: int|
            0 <= i < out.len() ==> (#[trigger] out[i]).outputs == rules[i].outputs,
{
    let start = Expanding { done: Seq::empty(), declared: Seq::empty(), bins: Map::empty() };
    assert(is_kept(start)) by {
        assert forall|o: Seq<char>| #[trigger] start.declared.contains(o) <==> some_makes(
            start.done,
            o,
        ) by {}
        assert forall|n: Seq<char>, o: Seq<char>| #[trigger]
            bin_files(start.bins, n).contains(o) <==> some_puts(start.done, n, o) by {}
    }
    lemma_plain_rules(start, rules, around, 0);
    assert(rules.skip(0) =~= rules);
    let out = start.rules(rules, around)->Ok_0.done;
    assert forall|i: int| 0 <= i < out.len() implies (#[trigger] out[i]).outputs.no_duplicates() by {
        assert(names_plain_files(rules[i]));
    }
    lemma_no_rule_repeats(out);
    assert forall|i: int, j: int, o: Seq<char>|
        #![trigger out[i].outputs.contains(o), out[j].outputs.contains(o)]
        0 <= i < j < out.len() && out[i].outputs.contains(o) implies !out[j].outputs.contains(o) by {
        assert(rules[i].outputs.contains(o));
        if out[j].outputs.contains(o) {
            assert(rules[j].outputs.contains(o));
        }
    }
    lemma_claim_all(Map::empty(), out);
}

// ------------------------------------------------ names, patterns and flags

/// Among declared outputs, a `*` of a pattern matches any characters, a `?` any one, and
/// every other character itself.
pub proof fn declared_outputs_are_matched(x: char, p: Seq<char>, t: Seq<char>)
    requires
        x != '*' && x != '?',
    ensures
        simple_matches(Seq::empty(), t) <==> t.len() == 0,
        simple_matches(seq![x] + p, t) <==> t.len() > 0 && t[0] == x && simple_matches(p, t.skip(1)),
        simple_matches(seq!['?'] + p, t) <==> t.len() > 0 && simple_matches(p, t.skip(1)),
        simple_matches(seq!['*'] + p, t) <==> exists|k: int|
            0 <= k <= t.len() && #[trigger] simple_matches(p, t.skip(k)),
    decreases t.len(),
{
    assert((seq![x] + p).skip(1) =~= p);
    assert((seq!['?'] + p).skip(1) =~= p);
    let q = seq!['*'] + p;
    assert(q.skip(1) =~= p);
    assert(t.skip(0) =~= t);
    assert(simple_matches(p, t) == simple_matches(p, t.skip(0)));
    if t.len() > 0 {
        let rest = t.skip(1);
        declared_outputs_are_matched(x, p, rest);
        if exists|k: int| 0 <= k <= rest.len() && #[trigger] simple_matches(p, rest.skip(k)) {
            let k = choose|k: int|
                0 <= k <= rest.len() && #[trigger] simple_matches(p, rest.skip(k));
            assert(rest.skip(k) =~= t.skip(k + 1));
            assert(simple_matches(p, t.skip(k + 1)));
        }
        if exists|k: int| 0 <= k <= t.len() && #[trigger] simple_matches(p, t.skip(k)) {
            let k = choose|k: int| 0 <= k <= t.len() && #[trigger] simple_matches(p, t.skip(k));
            if k > 0 {
                assert(rest.skip(k - 1) =~= t.skip(k));
                assert(simple_matches(p, rest.skip(k - 1)));
            } else {
                assert(t.skip(k) =~= t);
            }
        }
    } else if exists|k: int| 0 <= k <= t.len() && #[trigger] simple_matches(p, t.skip(k)) {
        let k = choose|k: int| 0 <= k <= t.len() && #[trigger] simple_matches(p, t.skip(k));
        assert(t.skip(k) =~= t);
    }
}

/// A command has a flag where a `%` stands before its character, unless that `%` is
/// itself behind one; one without `%` has none.
pub proof fn flags_are_found(a: Seq<char>, b: Seq<char>, flag: char)
    requires
        !a.contains('%'),
        flag != '%',
    ensures
        !has_flag(a, seq![flag]),
        has_flag(a + seq!['%', flag] + b, seq![flag]),
        has_flag(a + seq!['%', '%'] + b, seq![flag]) <==> has_flag(b, seq![flag]),
    decreases a.len(),
{
    lemma_no_flag(a, seq![flag]);
    let s = a + seq!['%', flag] + b;
    let t = a + seq!['%', '%'] + b;
    if a.len() == 0 {
        assert(seq![flag] =~= s.skip(1).subrange(0, 1));
        assert(t.skip(2) =~= b);
    } else {
        assert(a.contains(a[0]));
        let rest = a.skip(1);
        assert(!rest.contains('%')) by {
            if rest.contains('%') {
                let i = choose|i: int| 0 <= i < rest.len() && rest[i] == '%';
                assert(a[i + 1] == '%');
            }
        }
        flags_are_found(rest, b, flag);
        assert(s.skip(1) =~= rest + seq!['%', flag] + b);
        assert(t.skip(1) =~= rest + seq!['%', '%'] + b);
    }
}

/// A name stands for a file of the directory itself where it has none of the characters
/// of a pattern, no separator and no `..`, and is neither a group nor a bin.
pub proof fn local_names(s: Seq<char>)
    ensures
        s.len() == 0 ==> !names_local_file(s),
        s.contains('*') || s.contains('?') || s.contains('[') || s.contains('/') || s.contains('<')
            ==> !names_local_file(s),
        s.len() > 0 && s[0] == '{' && s.last() == '}' ==> !names_local_file(s),
        (exists|i: int| 0 <= i < s.len() - 1 && #[trigger] s[i] == '.' && s[i + 1] == '.')
            ==> !names_local_file(s),
        s.len() > 0 && !s.contains('*') && !s.contains('?') && !s.contains('[') && !s.contains('/')
            && !s.contains('<') && s[0] != '{' && (forall|i: int|
            0 <= i < s.len() - 1 ==> !(#[trigger] s[i] == '.' && s[i + 1] == '.'))
            ==> names_local_file(s),
{
    reveal_strlit("..");
    let dots = ".."@;
    find_is_first_occurrence(s, dots);
    if exists|i: int| 0 <= i < s.len() - 1 && #[trigger] s[i] == '.' && s[i + 1] == '.' {
        let i = choose|i: int| 0 <= i < s.len() - 1 && #[trigger] s[i] == '.' && s[i + 1] == '.';
        assert(s.subrange(i, i + dots.len()) =~= dots);
    }
    match find(s, dots) {
        Some(k) => {
            let found = s.subrange(k, k + dots.len());
            assert(found[0] == '.' && found[1] == '.');
            assert(s[k] == '.' && s[k + 1] == '.');
        },
        None => {},
    }
    if s.len() > 0 && s[0] == '<' {
        assert(s.contains(s[0]));
    }
}

} // verus!
