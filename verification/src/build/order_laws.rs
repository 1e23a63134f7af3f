//! What holds of the order in which rules are expanded, and of what is refused.
use vstd::prelude::*;

use crate::build::expand::{
    expand_patterns, expanded_rules, first_hidden, is_bin, open_bins, with_declared,
    without_repeats, Around, Expanding,
};
use crate::build::rule_laws::flags_are_found;
use crate::parser::glob::{expand_all, has_glob, Listing};
use crate::parser::percent::{has_hidden_part, is_hidden_part};
use crate::parser::rule::RuleText;
use crate::path_laws::{lemma_split_joined, lemma_split_plain, slash};
use crate::sorting::{is_sorted, sort, sort_is_sorted};
use crate::text::split;

verus! {

// ------------------------------------------------ order

/// Inputs are opened one after the other: a bin gives its files, in the order in which they
/// were collected, and any other input is itself.
pub proof fn bins_are_opened_in_place(
    a: Seq<Seq<char>>,
    b: Seq<Seq<char>>,
    bins: Map<Seq<char>, Seq<Seq<char>>>,
    name: Seq<char>,
    plain: Seq<char>,
)
    requires
        name.len() > 0,
        plain.len() > 0 && plain[0] != '{',
    ensures
        open_bins(a + b, bins) == open_bins(a, bins) + open_bins(b, bins),
        open_bins(seq![plain], bins) == seq![plain],
        bins.dom().contains(name) ==> open_bins(seq![seq!['{'] + name + seq!['}']], bins)
            == bins[name],
        !bins.dom().contains(name) ==> open_bins(seq![seq!['{'] + name + seq!['}']], bins)
            == Seq::<Seq<char>>::empty(),
        open_bins(Seq::empty(), bins) == Seq::<Seq<char>>::empty(),
    decreases a.len(),
{
    let braced = seq!['{'] + name + seq!['}'];
    let none = Seq::<Seq<char>>::empty();
    assert(seq![plain].drop_first() =~= none);
    assert(seq![braced].drop_first() =~= none);
    assert(open_bins(none, bins) =~= none);
    assert(open_bins(seq![plain], bins) =~= seq![plain]);
    assert(braced.subrange(1, braced.len() - 1) =~= name);
    assert(is_bin(braced));
    if bins.dom().contains(name) {
        assert(open_bins(seq![braced], bins) =~= bins[name]);
    } else {
        assert(open_bins(seq![braced], bins) =~= none);
    }
    if a.len() == 0 {
        assert(a + b =~= b);
        assert(open_bins(a, bins) + open_bins(b, bins) =~= open_bins(b, bins));
    } else {
        bins_are_opened_in_place(a.drop_first(), b, bins, name, plain);
        assert((a + b)[0] == a[0]);
        assert((a + b).drop_first() =~= a.drop_first() + b);
        assert(open_bins(a + b, bins) =~= open_bins(a, bins) + open_bins(b, bins));
    }
}

/// Patterns are expanded one after the other: what one gives, in sorted order, follows what
/// those before it gave; a name that is no pattern follows as it is.
pub proof fn patterns_are_expanded_one_by_one(
    found: Seq<Seq<char>>,
    a: Seq<Seq<char>>,
    b: Seq<Seq<char>>,
    listings: Map<Seq<char>, Listing>,
    declared: Seq<Seq<char>>,
    p: Seq<char>,
)
    ensures
        expand_patterns(found, a, listings, declared) matches Ok(files) ==> expand_patterns(
            found,
            a + b,
            listings,
            declared,
        ) == expand_patterns(files, b, listings, declared),
        expand_patterns(found, a, listings, declared) is Err ==> expand_patterns(
            found,
            a + b,
            listings,
            declared,
        ) == expand_patterns(found, a, listings, declared),
        !has_glob(p) ==> expand_patterns(found, seq![p], listings, declared) == Ok::<
            Seq<Seq<char>>,
            Seq<char>,
        >(found + seq![p]),
        expand_patterns(found, seq![p], listings, declared) matches Ok(files)
            ==> found.is_prefix_of(files) && is_sorted(files.skip(found.len() as int)),
    decreases a.len(),
{
    let one = seq![p];
    assert(one.drop_first() =~= Seq::<Seq<char>>::empty());
    if !has_glob(p) {
        assert(found.push(p) =~= found + seq![p]);
        assert(expand_patterns(found.push(p), one.drop_first(), listings, declared) == Ok::<
            Seq<Seq<char>>,
            Seq<char>,
        >(found.push(p)));
        assert(found =~= found.push(p).subrange(0, found.len() as int));
        assert(found.push(p).skip(found.len() as int) =~= seq![p]);
    } else if let Ok(files) = expand_all(seq![p], listings) {
        let more = sort(with_declared(files, declared, p));
        sort_is_sorted(with_declared(files, declared, p));
        assert(expand_patterns(found + more, one.drop_first(), listings, declared) == Ok::<
            Seq<Seq<char>>,
            Seq<char>,
        >(found + more));
        assert(found =~= (found + more).subrange(0, found.len() as int));
        assert((found + more).skip(found.len() as int) =~= more);
    }
    if a.len() == 0 {
        assert(a + b =~= b);
    } else {
        assert((a + b)[0] == a[0]);
        assert((a + b).drop_first() =~= a.drop_first() + b);
        if has_glob(a[0]) {
            if let Ok(files) = expand_all(seq![a[0]], listings) {
                patterns_are_expanded_one_by_one(
                    found + sort(with_declared(files, declared, a[0])),
                    a.drop_first(),
                    b,
                    listings,
                    declared,
                    p,
                );
            }
        } else {
            patterns_are_expanded_one_by_one(
                found.push(a[0]),
                a.drop_first(),
                b,
                listings,
                declared,
                p,
            );
        }
    }
}

/// Of inputs that repeat, the first stays where it stands: a file that is new follows those
/// before it, and one that was there adds nothing.
pub proof fn the_first_of_repeated_inputs_stays(
    kept: Seq<Seq<char>>,
    a: Seq<Seq<char>>,
    b: Seq<Seq<char>>,
    file: Seq<char>,
)
    ensures
        without_repeats(kept, a + b) == without_repeats(without_repeats(kept, a), b),
        kept.contains(file) ==> without_repeats(kept, seq![file]) == kept,
        !kept.contains(file) ==> without_repeats(kept, seq![file]) == kept.push(file),
        without_repeats(kept, Seq::empty()) == kept,
    decreases a.len(),
{
    let one = seq![file];
    assert(one.drop_first() =~= Seq::<Seq<char>>::empty());
    assert(without_repeats(kept.push(file), one.drop_first()) == kept.push(file));
    assert(without_repeats(kept, one.drop_first()) == kept);
    if a.len() == 0 {
        assert(a + b =~= b);
    } else {
        assert((a + b)[0] == a[0]);
        assert((a + b).drop_first() =~= a.drop_first() + b);
        let next = if kept.contains(a[0]) {
            kept
        } else {
            kept.push(a[0])
        };
        the_first_of_repeated_inputs_stays(next, a.drop_first(), b, file);
    }
}

/// A rule for each input gives one rule for each, in the order of the inputs, after the rules
/// that were there.
pub proof fn each_input_has_its_rule(
    s: Expanding,
    rule: RuleText,
    inputs: Seq<Seq<char>>,
    dir_name: Seq<char>,
)
    ensures
        s.emit_each(rule, inputs, dir_name) matches Ok(t) ==> {
            &&& t.done.len() == s.done.len() + inputs.len()
            &&& forall|i: int| 0 <= i < s.done.len() ==> #[trigger] t.done[i] == s.done[i]
            &&& forall|i: int|
                0 <= i < inputs.len() ==> (#[trigger] t.done[s.done.len() + i]).inputs
                    == seq![inputs[i]]
        },
    decreases inputs.len(),
{
    if inputs.len() > 0 {
        if let Ok(u) = s.emit(rule, seq![inputs[0]], true, dir_name) {
            let rest = inputs.drop_first();
            each_input_has_its_rule(u, rule, rest, dir_name);
            if let Ok(t) = s.emit_each(rule, inputs, dir_name) {
                assert forall|i: int| 0 <= i < inputs.len() implies (
                #[trigger] t.done[s.done.len() + i]).inputs == seq![inputs[i]] by {
                    if i == 0 {
                        assert(t.done[s.done.len() as int] == u.done[s.done.len() as int]);
                    } else {
                        assert(t.done[u.done.len() + (i - 1)].inputs == seq![rest[i - 1]]);
                    }
                }
                assert forall|i: int| 0 <= i < s.done.len() implies #[trigger] t.done[i]
                    == s.done[i] by {
                    assert(t.done[i] == u.done[i]);
                }
            }
        }
    }
}

proof fn lemma_names_stay(
    found: Seq<Seq<char>>,
    names: Seq<Seq<char>>,
    bins: Map<Seq<char>, Seq<Seq<char>>>,
    listings: Map<Seq<char>, Listing>,
    declared: Seq<Seq<char>>,
)
    requires
        forall|j: int| 0 <= j < names.len() ==> !has_glob(#[trigger] names[j]) && !is_bin(names[j]),
        (found + names).no_duplicates(),
    ensures
        open_bins(names, bins) == names,
        expand_patterns(found, names, listings, declared) == Ok::<Seq<Seq<char>>, Seq<char>>(
            found + names,
        ),
        without_repeats(found, names) == found + names,
    decreases names.len(),
{
    if names.len() > 0 {
        let rest = names.drop_first();
        assert forall|j: int| 0 <= j < rest.len() implies !has_glob(#[trigger] rest[j]) && !is_bin(
            rest[j],
        ) by {
            assert(rest[j] == names[j + 1]);
        }
        assert(found.push(names[0]) + rest =~= found + names);
        lemma_names_stay(found.push(names[0]), rest, bins, listings, declared);
        assert(open_bins(names, bins) =~= names);
        assert(!found.contains(names[0])) by {
            if found.contains(names[0]) {
                let i = choose|i: int| 0 <= i < found.len() && found[i] == names[0];
                assert((found + names)[i] == (found + names)[found.len() as int]);
            }
        }
    } else {
        assert(found + names =~= found);
        assert(open_bins(names, bins) =~= names);
    }
}

/// Plain names that differ are the inputs of a rule as they stand: of the one command that it
/// becomes, or, one by one, of the commands of a `foreach` rule.
pub proof fn plain_inputs_stand_in_order(s: Expanding, rule: RuleText, around: Around)
    requires
        rule.inputs.len() > 0,
        rule.inputs.no_duplicates(),
        forall|j: int|
            0 <= j < rule.inputs.len() ==> !has_glob(#[trigger] rule.inputs[j]) && !is_bin(
                rule.inputs[j],
            ),
    ensures
        s.rule(rule, around) matches Ok(t) ==> {
            &&& !rule.foreach ==> t.done.len() == s.done.len() + 1 && t.done.last().inputs
                == rule.inputs
            &&& rule.foreach ==> t.done.len() == s.done.len() + rule.inputs.len() && forall|i: int|
                0 <= i < rule.inputs.len() ==> (#[trigger] t.done[s.done.len() + i]).inputs
                    == seq![rule.inputs[i]]
        },
{
    let none = Seq::<Seq<char>>::empty();
    assert(none + rule.inputs =~= rule.inputs);
    lemma_names_stay(none, rule.inputs, s.bins, around.listings, s.declared);
    each_input_has_its_rule(s, rule, rule.inputs, around.dir_name);
}

// ------------------------------------------------ what is refused

/// A part of a path is hidden where it begins with a dot, unless it is `.` or `..`; a path is
/// hidden where one of its parts is.
pub proof fn hidden_paths_have_a_hidden_part(a: Seq<char>, b: Seq<char>, name: Seq<char>)
    requires
        !name.contains('/'),
    ensures
        has_hidden_part(a + slash() + b) <==> has_hidden_part(a) || has_hidden_part(b),
        has_hidden_part(name) <==> name.len() > 0 && name[0] == '.' && name != seq!['.'] && name
            != seq!['.', '.'],
{
    reveal_strlit("/");
    reveal_strlit(".");
    reveal_strlit("..");
    assert("/"@ =~= slash());
    assert("."@ =~= seq!['.']);
    assert(".."@ =~= seq!['.', '.']);
    lemma_split_joined(a, b);
    lemma_split_plain(name);
    let all = split(a + slash() + b, slash());
    let x = split(a, slash());
    let y = split(b, slash());
    if has_hidden_part(a + slash() + b) {
        let i = choose|i: int| 0 <= i < all.len() && is_hidden_part(#[trigger] all[i]);
        if i < x.len() {
            assert(is_hidden_part(x[i]));
        } else {
            assert(is_hidden_part(y[i - x.len()]));
        }
    }
    if has_hidden_part(a) {
        let i = choose|i: int| 0 <= i < x.len() && is_hidden_part(#[trigger] x[i]);
        assert(is_hidden_part(all[i]));
    }
    if has_hidden_part(b) {
        let i = choose|i: int| 0 <= i < y.len() && is_hidden_part(#[trigger] y[i]);
        assert(is_hidden_part(all[x.len() + i]));
    }
    let one = split(name, slash());
    assert(one[0] == name);
    if has_hidden_part(name) {
        let i = choose|i: int| 0 <= i < one.len() && is_hidden_part(#[trigger] one[i]);
        assert(i == 0);
    } else {
        assert(!is_hidden_part(one[0]));
    }
}

spec fn none_hidden(rules: Seq<RuleText>) -> bool {
    forall|i: int, j: int|
        #![trigger rules[i].outputs[j]]
        0 <= i < rules.len() && 0 <= j < rules[i].outputs.len() ==> !has_hidden_part(
            rules[i].outputs[j],
        )
}

proof fn lemma_first_hidden(outputs: Seq<Seq<char>>, j: int)
    requires
        first_hidden(outputs) is None,
        0 <= j < outputs.len(),
    ensures
        !has_hidden_part(outputs[j]),
    decreases outputs.len(),
{
    if j > 0 {
        lemma_first_hidden(outputs.drop_first(), j - 1);
        assert(outputs.drop_first()[j - 1] == outputs[j]);
    }
}

proof fn lemma_emit_hidden(
    s: Expanding,
    rule: RuleText,
    inputs: Seq<Seq<char>>,
    had_inputs: bool,
    dir_name: Seq<char>,
)
    requires
        none_hidden(s.done),
    ensures
        s.emit(rule, inputs, had_inputs, dir_name) matches Ok(t) ==> none_hidden(t.done),
{
    if let Ok(t) = s.emit(rule, inputs, had_inputs, dir_name) {
        assert forall|i: int, j: int|
            #![trigger t.done[i].outputs[j]]
            0 <= i < t.done.len() && 0 <= j < t.done[i].outputs.len() implies !has_hidden_part(
            t.done[i].outputs[j],
        ) by {
            if i < s.done.len() {
                assert(t.done[i] == s.done[i]);
                assert(!has_hidden_part(s.done[i].outputs[j]));
            } else {
                lemma_first_hidden(t.done[i].outputs, j);
            }
        }
    }
}

proof fn lemma_emit_each_hidden(
    s: Expanding,
    rule: RuleText,
    inputs: Seq<Seq<char>>,
    dir_name: Seq<char>,
)
    requires
        none_hidden(s.done),
    ensures
        s.emit_each(rule, inputs, dir_name) matches Ok(t) ==> none_hidden(t.done),
    decreases inputs.len(),
{
    if inputs.len() > 0 {
        lemma_emit_hidden(s, rule, seq![inputs[0]], true, dir_name);
        if let Ok(u) = s.emit(rule, seq![inputs[0]], true, dir_name) {
            lemma_emit_each_hidden(u, rule, inputs.drop_first(), dir_name);
        }
    }
}

proof fn lemma_rules_hidden(s: Expanding, rules: Seq<RuleText>, around: Around)
    requires
        none_hidden(s.done),
    ensures
        s.rules(rules, around) matches Ok(t) ==> none_hidden(t.done),
    decreases rules.len(),
{
    if rules.len() > 0 {
        let rule = rules[0];
        if let Ok(u) = s.rule(rule, around) {
            if !(rule.had_inputs && rule.inputs.len() == 0) {
                let inputs = open_bins(rule.inputs, s.bins);
                let found = expand_patterns(
                    Seq::empty(),
                    inputs,
                    around.listings,
                    s.declared,
                )->Ok_0;
                let files = without_repeats(Seq::empty(), found);
                lemma_emit_each_hidden(s, rule, files, around.dir_name);
                lemma_emit_hidden(s, rule, files, rule.had_inputs, around.dir_name);
            }
            assert(none_hidden(u.done));
            lemma_rules_hidden(u, rules.drop_first(), around);
        }
    }
}

/// No rule of the result has a hidden output.
pub proof fn hidden_outputs_are_refused(rules: Seq<RuleText>, around: Around)
    ensures
        expanded_rules(rules, around) matches Ok(out) ==> forall|i: int, j: int|
            #![trigger out[i].outputs[j]]
            0 <= i < out.len() && 0 <= j < out[i].outputs.len() ==> !has_hidden_part(
                out[i].outputs[j],
            ),
{
    let start = Expanding { done: Seq::empty(), declared: Seq::empty(), bins: Map::empty() };
    lemma_rules_hidden(start, rules, around);
}

/// A command that speaks of its inputs, by `%f`, `%b` or `%B`, is refused where its rule has
/// none, and one that speaks of order-only inputs, by `%i`, where its rule has none of these.
pub proof fn flags_need_their_files(
    s: Expanding,
    rule: RuleText,
    around: Around,
    a: Seq<char>,
    flag: char,
    b: Seq<char>,
)
    requires
        !a.contains('%'),
        rule.command.command == a + seq!['%', flag] + b,
        !(rule.had_inputs && rule.inputs.len() == 0),
        ((flag == 'f' || flag == 'b' || flag == 'B') && rule.inputs.len() == 0) || (flag == 'i'
            && rule.order_only_inputs.len() == 0),
    ensures
        s.rule(rule, around) is Err,
{
    reveal_strlit("%f");
    reveal_strlit("%b");
    reveal_strlit("%B");
    reveal_strlit("%i");
    assert("%f"@.skip(1) =~= seq!['f']);
    assert("%b"@.skip(1) =~= seq!['b']);
    assert("%B"@.skip(1) =~= seq!['B']);
    assert("%i"@.skip(1) =~= seq!['i']);
    flags_are_found(a, b, flag);
    if rule.inputs.len() == 0 {
        let inputs = open_bins(rule.inputs, s.bins);
        assert(inputs.len() == 0);
        assert(expand_patterns(Seq::empty(), inputs, around.listings, s.declared) == Ok::<
            Seq<Seq<char>>,
            Seq<char>,
        >(Seq::empty()));
        assert(without_repeats(Seq::empty(), Seq::empty()) == Seq::<Seq<char>>::empty());
    }
}

} // verus!
