//! What holds of expanded rules.
use vstd::prelude::*;

use crate::build::expand::{
    claim, claim_all, expand_patterns, expanded_rules, first_hidden, first_repeated, not_among,
    open_bins, outputs_for, pattern_dirs, repeated_output, searched_dirs, with_declared,
    without_repeats, Around, Expanding,
};
use crate::parser::glob::{dir_part, expand_all, expand_one, has_glob, Listing};
use crate::parser::percent::has_hidden_part;
use crate::parser::rule::RuleText;
use crate::sorting::sort;

verus! {

/// Whether a rule names one command with its files, and none of its outputs is
/// hidden.
pub open spec fn is_plain(r: RuleText) -> bool {
    &&& !r.foreach
    &&& r.vars_snapshot is None
    &&& forall|k: int| 0 <= k < r.outputs.len() ==> !has_hidden_part(#[trigger] r.outputs[k])
}

spec fn all_plain(rules: Seq<RuleText>) -> bool {
    forall|i: int| 0 <= i < rules.len() ==> is_plain(#[trigger] rules[i])
}

proof fn lemma_none_hidden(outputs: Seq<Seq<char>>)
    requires
        first_hidden(outputs) is None,
    ensures
        forall|k: int| 0 <= k < outputs.len() ==> !has_hidden_part(#[trigger] outputs[k]),
    decreases outputs.len(),
{
    if outputs.len() > 0 {
        let rest = outputs.drop_first();
        lemma_none_hidden(rest);
        assert forall|k: int| 0 <= k < outputs.len() implies !has_hidden_part(
            #[trigger] outputs[k],
        ) by {
            if k > 0 {
                assert(rest[k - 1] == outputs[k]);
            }
        }
    }
}

proof fn lemma_emit(
    s: Expanding,
    rule: RuleText,
    inputs: Seq<Seq<char>>,
    had_inputs: bool,
    dir_name: Seq<char>,
)
    requires
        all_plain(s.done),
        s.emit(rule, inputs, had_inputs, dir_name) is Ok,
    ensures
        all_plain(s.emit(rule, inputs, had_inputs, dir_name)->Ok_0.done),
{
    lemma_none_hidden(outputs_for(rule.outputs, inputs));
    let done = s.emit(rule, inputs, had_inputs, dir_name)->Ok_0.done;
    assert forall|i: int| 0 <= i < done.len() implies is_plain(#[trigger] done[i]) by {
        if i < s.done.len() {
            assert(done[i] == s.done[i]);
        }
    }
}

proof fn lemma_emit_each(
    s: Expanding,
    rule: RuleText,
    inputs: Seq<Seq<char>>,
    dir_name: Seq<char>,
)
    requires
        all_plain(s.done),
        s.emit_each(rule, inputs, dir_name) is Ok,
    ensures
        all_plain(s.emit_each(rule, inputs, dir_name)->Ok_0.done),
    decreases inputs.len(),
{
    if inputs.len() > 0 {
        lemma_emit(s, rule, seq![inputs[0]], true, dir_name);
        lemma_emit_each(
            s.emit(rule, seq![inputs[0]], true, dir_name)->Ok_0,
            rule,
            inputs.drop_first(),
            dir_name,
        );
    }
}

proof fn lemma_rules(s: Expanding, rules: Seq<RuleText>, around: Around)
    requires
        all_plain(s.done),
        s.rules(rules, around) is Ok,
    ensures
        all_plain(s.rules(rules, around)->Ok_0.done),
    decreases rules.len(),
{
    if rules.len() > 0 {
        let rule = rules[0];
        let next = s.rule(rule, around)->Ok_0;
        assert(all_plain(next.done)) by {
            if !(rule.had_inputs && rule.inputs.len() == 0) {
                let inputs = open_bins(rule.inputs, s.bins);
                let found = expand_patterns(
                    Seq::empty(),
                    inputs,
                    around.listings,
                    s.declared,
                )->Ok_0;
                let files = without_repeats(Seq::empty(), found);
                if rule.foreach {
                    lemma_emit_each(s, rule, files, around.dir_name);
                } else {
                    lemma_emit(s, rule, files, rule.had_inputs, around.dir_name);
                }
            }
        }
        lemma_rules(next, rules.drop_first(), around);
    }
}

/// Every rule that rules expand to is one command: it is not for each of its
/// inputs, no variables are left to expand, and no output is hidden.
pub proof fn expanded_rules_are_plain(rules: Seq<RuleText>, around: Around)
    ensures
        expanded_rules(rules, around) matches Ok(out) ==> forall|i: int|
            0 <= i < out.len() ==> is_plain(#[trigger] out[i]),
{
    if let Ok(out) = expanded_rules(rules, around) {
        let start = Expanding { done: Seq::empty(), declared: Seq::empty(), bins: Map::empty() };
        lemma_rules(start, rules, around);
    }
}

proof fn lemma_not_repeated(seen: Seq<Seq<char>>, outputs: Seq<Seq<char>>)
    requires
        first_repeated(seen, outputs) is None,
    ensures
        outputs.no_duplicates(),
        forall|k: int| 0 <= k < outputs.len() ==> !seen.contains(#[trigger] outputs[k]),
    decreases outputs.len(),
{
    if outputs.len() > 0 {
        let rest = outputs.drop_first();
        let more = seen.push(outputs[0]);
        lemma_not_repeated(more, rest);
        assert(more[seen.len() as int] == outputs[0]);
        assert forall|k: int| 0 <= k < outputs.len() implies !seen.contains(
            #[trigger] outputs[k],
        ) by {
            if k > 0 {
                assert(rest[k - 1] == outputs[k]);
                if seen.contains(outputs[k]) {
                    let i = choose|i: int| 0 <= i < seen.len() && seen[i] == outputs[k];
                    assert(more[i] == outputs[k]);
                }
            }
        }
        assert forall|a: int, b: int|
            0 <= a < b < outputs.len() implies outputs[a] != outputs[b] by {
            assert(rest[b - 1] == outputs[b]);
            if a > 0 {
                assert(rest[a - 1] == outputs[a]);
            } else {
                assert(!more.contains(rest[b - 1]));
            }
        }
    }
}

proof fn lemma_no_rule_repeats(rules: Seq<RuleText>)
    requires
        repeated_output(rules) is None,
    ensures
        forall|i: int| 0 <= i < rules.len() ==> (#[trigger] rules[i]).outputs.no_duplicates(),
    decreases rules.len(),
{
    if rules.len() > 0 {
        let rest = rules.drop_first();
        lemma_not_repeated(Seq::empty(), rules[0].outputs);
        lemma_no_rule_repeats(rest);
        assert forall|i: int| 0 <= i < rules.len() implies (
        #[trigger] rules[i]).outputs.no_duplicates() by {
            if i > 0 {
                assert(rest[i - 1] == rules[i]);
            }
        }
    }
}

proof fn lemma_claim(
    owners: Map<Seq<char>, Seq<char>>,
    command: Seq<char>,
    outputs: Seq<Seq<char>>,
)
    requires
        claim(owners, command, outputs) is Ok,
    ensures
        ({
            let after = claim(owners, command, outputs)->Ok_0;
            &&& forall|o: Seq<char>| #[trigger]
                owners.dom().contains(o) ==> after.dom().contains(o) && after[o] == owners[o]
            &&& forall|k: int|
                0 <= k < outputs.len() ==> after.dom().contains(#[trigger] outputs[k])
                    && after[outputs[k]] == command
        }),
    decreases outputs.len(),
{
    if outputs.len() > 0 {
        let next = owners.insert(outputs[0], command);
        let rest = outputs.drop_first();
        lemma_claim(next, command, rest);
        let after = claim(owners, command, outputs)->Ok_0;
        assert(next.dom().contains(outputs[0]));
        assert forall|o: Seq<char>| #[trigger] owners.dom().contains(o) implies after.dom().contains(
            o,
        ) && after[o] == owners[o] by {
            assert(next.dom().contains(o));
        }
        assert forall|k: int| 0 <= k < outputs.len() implies after.dom().contains(
            #[trigger] outputs[k],
        ) && after[outputs[k]] == command by {
            if k > 0 {
                assert(rest[k - 1] == outputs[k]);
            }
        }
    }
}

/// Whether a rule has an output.
pub open spec fn makes(r: RuleText, output: Seq<char>) -> bool {
    r.outputs.contains(output)
}

proof fn lemma_owned(
    owners: Map<Seq<char>, Seq<char>>,
    rules: Seq<RuleText>,
    i: int,
    output: Seq<char>,
)
    requires
        claim_all(owners, rules) is None,
        0 <= i < rules.len(),
        makes(rules[i], output),
    ensures
        owners.dom().contains(output) ==> owners[output] == rules[i].command.command,
    decreases rules.len(),
{
    lemma_claim(owners, rules[0].command.command, rules[0].outputs);
    let next = claim(owners, rules[0].command.command, rules[0].outputs)->Ok_0;
    if i > 0 {
        assert(rules.drop_first()[i - 1] == rules[i]);
        lemma_owned(next, rules.drop_first(), i - 1, output);
    } else {
        let k = choose|k: int| 0 <= k < rules[0].outputs.len() && rules[0].outputs[k] == output;
        assert(next[rules[0].outputs[k]] == rules[0].command.command);
    }
}

proof fn lemma_one_owner(
    owners: Map<Seq<char>, Seq<char>>,
    rules: Seq<RuleText>,
    i: int,
    j: int,
    output: Seq<char>,
)
    requires
        claim_all(owners, rules) is None,
        0 <= i < j < rules.len(),
        makes(rules[i], output),
        makes(rules[j], output),
    ensures
        rules[i].command.command == rules[j].command.command,
    decreases rules.len(),
{
    lemma_claim(owners, rules[0].command.command, rules[0].outputs);
    let next = claim(owners, rules[0].command.command, rules[0].outputs)->Ok_0;
    let rest = rules.drop_first();
    assert(rest[j - 1] == rules[j]);
    if i > 0 {
        assert(rest[i - 1] == rules[i]);
        lemma_one_owner(next, rest, i - 1, j - 1, output);
    } else {
        let k = choose|k: int| 0 <= k < rules[0].outputs.len() && rules[0].outputs[k] == output;
        assert(next.dom().contains(rules[0].outputs[k]));
        lemma_owned(next, rest, j - 1, output);
    }
}

/// No output stands twice in a rule that rules expand to, and rules with the
/// same output have the same command.
pub proof fn every_output_has_one_owner(rules: Seq<RuleText>, around: Around)
    ensures
        expanded_rules(rules, around) matches Ok(out) ==> {
            &&& forall|i: int| 0 <= i < out.len() ==> (#[trigger] out[i]).outputs.no_duplicates()
            &&& forall|i: int, j: int, o: Seq<char>|
                #![trigger makes(out[i], o), makes(out[j], o)]
                0 <= i < j < out.len() && makes(out[i], o) && makes(out[j], o)
                    ==> out[i].command.command == out[j].command.command
        },
{
    if let Ok(out) = expanded_rules(rules, around) {
        lemma_no_rule_repeats(out);
        assert forall|i: int, j: int, o: Seq<char>|
            #![trigger makes(out[i], o), makes(out[j], o)]
            0 <= i < j < out.len() && makes(out[i], o) && makes(out[j], o) implies
            out[i].command.command == out[j].command.command by {
            lemma_one_owner(Map::empty(), out, i, j, o);
        }
    }
}

// ------------------------------------------------ what has to be listed

/// Whether two sets of listings say the same of some directories.
pub open spec fn same_listings(
    a: Map<Seq<char>, Listing>,
    b: Map<Seq<char>, Listing>,
    dirs: Seq<Seq<char>>,
) -> bool {
    forall|i: int|
        0 <= i < dirs.len() ==> {
            &&& a.dom().contains(#[trigger] dirs[i]) == b.dom().contains(dirs[i])
            &&& a.dom().contains(dirs[i]) ==> a[dirs[i]] == b[dirs[i]]
        }
}

proof fn lemma_same_split(
    a: Map<Seq<char>, Listing>,
    b: Map<Seq<char>, Listing>,
    x: Seq<Seq<char>>,
    y: Seq<Seq<char>>,
)
    requires
        same_listings(a, b, x + y),
    ensures
        same_listings(a, b, x),
        same_listings(a, b, y),
{
    assert forall|i: int| 0 <= i < x.len() implies {
        &&& a.dom().contains(#[trigger] x[i]) == b.dom().contains(x[i])
        &&& a.dom().contains(x[i]) ==> a[x[i]] == b[x[i]]
    } by {
        assert((x + y)[i] == x[i]);
    }
    assert forall|i: int| 0 <= i < y.len() implies {
        &&& a.dom().contains(#[trigger] y[i]) == b.dom().contains(y[i])
        &&& a.dom().contains(y[i]) ==> a[y[i]] == b[y[i]]
    } by {
        assert((x + y)[x.len() + i] == y[i]);
    }
}

/// Patterns expand alike where the listings of their directories are the same.
proof fn lemma_same_patterns(
    found: Seq<Seq<char>>,
    patterns: Seq<Seq<char>>,
    a: Map<Seq<char>, Listing>,
    b: Map<Seq<char>, Listing>,
    declared: Seq<Seq<char>>,
)
    requires
        same_listings(a, b, pattern_dirs(patterns)),
    ensures
        expand_patterns(found, patterns, a, declared) == expand_patterns(
            found,
            patterns,
            b,
            declared,
        ),
    decreases patterns.len(),
{
    if patterns.len() > 0 {
        let p = patterns[0];
        let rest = patterns.drop_first();
        if has_glob(p) {
            let own = seq![dir_part(p)];
            lemma_same_split(a, b, own, pattern_dirs(rest));
            assert(own[0] == dir_part(p));
            let one = seq![p];
            assert(one.drop_last() =~= Seq::empty());
            assert(expand_all(one.drop_last(), a) == expand_all(one.drop_last(), b));
            assert(expand_one(p, a) == expand_one(p, b));
            assert(expand_all(one, a) == expand_all(one, b));
            if let Ok(files) = expand_all(one, a) {
                lemma_same_patterns(
                    found + sort(with_declared(files, declared, p)),
                    rest,
                    a,
                    b,
                    declared,
                );
            }
        } else {
            assert(Seq::<Seq<char>>::empty() + pattern_dirs(rest) =~= pattern_dirs(rest));
            lemma_same_patterns(found.push(p), rest, a, b, declared);
        }
    }
}

proof fn lemma_same_rules(
    s: Expanding,
    rules: Seq<RuleText>,
    around: Around,
    disk: Map<Seq<char>, Listing>,
)
    requires
        same_listings(around.listings, disk, s.searched(rules, around)),
    ensures
        s.rules(rules, around) == s.rules(rules, (Around { listings: disk, ..around })),
        s.searched(rules, around) == s.searched(rules, (Around { listings: disk, ..around })),
    decreases rules.len(),
{
    if rules.len() > 0 {
        let rule = rules[0];
        let own = s.searched_by(rule);
        let after = match s.rule(rule, around) {
            Err(_) => Seq::empty(),
            Ok(n) => n.searched(rules.drop_first(), around),
        };
        lemma_same_split(around.listings, disk, own, after);
        lemma_same_rule(s, rule, around, disk);
        if let Ok(n) = s.rule(rule, around) {
            lemma_same_rules(n, rules.drop_first(), around, disk);
        }
    }
}

proof fn lemma_none_left(names: Seq<Seq<char>>, known: Seq<Seq<char>>, i: int)
    requires
        0 <= i < names.len(),
        not_among(names, known).len() == 0,
    ensures
        known.contains(names[i]),
    decreases names.len(),
{
    let before = names.drop_last();
    assert(known.contains(names.last()));
    if i < before.len() {
        assert(before[i] == names[i]);
        lemma_none_left(before, known, i);
    }
}

/// When no directory is left to be listed, the rules expand as they would with the
/// listings of all directories, whatever is on disk. This needs listings of the
/// directories that were asked for which are those of the disk.
pub proof fn what_was_listed_is_enough(
    rules: Seq<RuleText>,
    around: Around,
    asked: Seq<Seq<char>>,
    disk: Map<Seq<char>, Listing>,
)
    requires
        same_listings(around.listings, disk, asked),
        not_among(searched_dirs(rules, around), asked).len() == 0,
    ensures
        expanded_rules(rules, around) == expanded_rules(
            rules,
            (Around { listings: disk, ..around }),
        ),
{
    let start = Expanding { done: Seq::empty(), declared: Seq::empty(), bins: Map::empty() };
    let dirs = searched_dirs(rules, around);
    assert(same_listings(around.listings, disk, dirs)) by {
        assert forall|i: int| 0 <= i < dirs.len() implies {
            &&& around.listings.dom().contains(#[trigger] dirs[i]) == disk.dom().contains(dirs[i])
            &&& around.listings.dom().contains(dirs[i]) ==> around.listings[dirs[i]]
                == disk[dirs[i]]
        } by {
            lemma_none_left(dirs, asked, i);
            let k = choose|k: int| 0 <= k < asked.len() && asked[k] == dirs[i];
            assert(around.listings.dom().contains(asked[k]) == disk.dom().contains(asked[k]));
        }
    }
    lemma_same_rules(start, rules, around, disk);
}

/// One rule is expanded alike where the listings that it searches are the same.
proof fn lemma_same_rule(
    s: Expanding,
    rule: RuleText,
    around: Around,
    disk: Map<Seq<char>, Listing>,
)
    requires
        same_listings(around.listings, disk, s.searched_by(rule)),
    ensures
        s.rule(rule, around) == s.rule(rule, (Around { listings: disk, ..around })),
{
    if !(rule.had_inputs && rule.inputs.len() == 0) {
        lemma_same_patterns(
            Seq::empty(),
            open_bins(rule.inputs, s.bins),
            around.listings,
            disk,
            s.declared,
        );
    }
}

proof fn lemma_one_searches(s: Expanding, one: Seq<RuleText>, around: Around)
    requires
        one.len() == 1,
    ensures
        s.searched(one, around) == s.searched_by(one[0]),
{
    assert(one.drop_first() =~= Seq::empty());
    if let Ok(t) = s.rule(one[0], around) {
        assert(t.searched(one.drop_first(), around) == Seq::<Seq<char>>::empty());
    }
    assert(s.searched(one, around) =~= s.searched_by(one[0]));
}

/// Where the listings for some rules are those of the disk, one more rule searches
/// what it searches with those of the disk.
proof fn lemma_one_more(
    s: Expanding,
    rules: Seq<RuleText>,
    around: Around,
    disk: Map<Seq<char>, Listing>,
    n: int,
)
    requires
        0 <= n < rules.len(),
        same_listings(around.listings, disk, s.searched(rules.take(n), around)),
    ensures
        s.searched(rules.take(n + 1), around) == s.searched(
            rules.take(n + 1),
            (Around { listings: disk, ..around }),
        ),
    decreases n,
{
    let full = Around { listings: disk, ..around };
    let rule = rules[0];
    let own = s.searched_by(rule);
    assert(rules.take(n + 1)[0] == rule);
    assert(rules.take(n + 1).drop_first() =~= rules.drop_first().take(n));
    if n == 0 {
        lemma_one_searches(s, rules.take(1), around);
        lemma_one_searches(s, rules.take(1), full);
    } else {
        assert(rules.take(n)[0] == rule);
        assert(rules.take(n).drop_first() =~= rules.drop_first().take(n - 1));
        let after = match s.rule(rule, around) {
            Err(_) => Seq::empty(),
            Ok(t) => t.searched(rules.take(n).drop_first(), around),
        };
        lemma_same_split(around.listings, disk, own, after);
        lemma_same_rule(s, rule, around, disk);
        if let Ok(t) = s.rule(rule, around) {
            lemma_one_more(t, rules.drop_first(), around, disk, n - 1);
        }
    }
}

/// What the first rules search is among what all search.
proof fn lemma_first_search(
    s: Expanding,
    rules: Seq<RuleText>,
    around: Around,
    a: Map<Seq<char>, Listing>,
    b: Map<Seq<char>, Listing>,
    n: int,
)
    requires
        0 <= n <= rules.len(),
        same_listings(a, b, s.searched(rules, around)),
    ensures
        same_listings(a, b, s.searched(rules.take(n), around)),
    decreases n,
{
    if n == 0 {
        assert(rules.take(0) =~= Seq::empty());
    } else {
        let rule = rules[0];
        let own = s.searched_by(rule);
        assert(rules.take(n)[0] == rule);
        assert(rules.take(n).drop_first() =~= rules.drop_first().take(n - 1));
        let after = match s.rule(rule, around) {
            Err(_) => Seq::empty(),
            Ok(t) => t.searched(rules.drop_first(), around),
        };
        lemma_same_split(a, b, own, after);
        let first = match s.rule(rule, around) {
            Err(_) => Seq::empty(),
            Ok(t) => {
                lemma_first_search(t, rules.drop_first(), around, a, b, n - 1);
                t.searched(rules.drop_first().take(n - 1), around)
            },
        };
        assert forall|i: int| 0 <= i < (own + first).len() implies {
            &&& a.dom().contains(#[trigger] (own + first)[i]) == b.dom().contains((own + first)[i])
            &&& a.dom().contains((own + first)[i]) ==> a[(own + first)[i]] == b[(own + first)[i]]
        } by {
            if i < own.len() {
                assert((own + first)[i] == own[i]);
            } else {
                assert((own + first)[i] == first[i - own.len()]);
            }
        }
    }
}

/// Whether the listings that the first rules search are those of the disk.
pub open spec fn is_settled(
    rules: Seq<RuleText>,
    around: Around,
    disk: Map<Seq<char>, Listing>,
    n: int,
) -> bool {
    same_listings(around.listings, disk, searched_dirs(rules.take(n), around))
}

/// Each time that what is searched gets listed, at least one more rule is settled.
/// So as many rounds as there are rules are enough.
pub proof fn each_round_settles_one_more_rule(
    rules: Seq<RuleText>,
    around: Around,
    more: Map<Seq<char>, Listing>,
    disk: Map<Seq<char>, Listing>,
    n: int,
)
    requires
        0 <= n < rules.len(),
        is_settled(rules, around, disk, n),
        same_listings(more, disk, searched_dirs(rules, around)),
    ensures
        is_settled(rules, (Around { listings: more, ..around }), disk, n + 1),
{
    let start = Expanding { done: Seq::empty(), declared: Seq::empty(), bins: Map::empty() };
    let full = Around { listings: disk, ..around };
    let next = Around { listings: more, ..around };
    let first = rules.take(n + 1);
    lemma_one_more(start, rules, around, disk, n);
    lemma_first_search(start, rules, around, more, disk, n + 1);
    assert(same_listings(disk, more, start.searched(first, full)));
    lemma_same_rules(start, first, full, more);
    assert((Around { listings: more, ..full }) == next);
}

// ------------------------------------------------ inputs that stand once

spec fn all_once(rules: Seq<RuleText>) -> bool {
    forall|i: int| 0 <= i < rules.len() ==> (#[trigger] rules[i]).inputs.no_duplicates()
}

proof fn lemma_without_repeats(kept: Seq<Seq<char>>, files: Seq<Seq<char>>)
    requires
        kept.no_duplicates(),
    ensures
        without_repeats(kept, files).no_duplicates(),
    decreases files.len(),
{
    if files.len() > 0 {
        lemma_without_repeats(
            if kept.contains(files[0]) {
                kept
            } else {
                kept.push(files[0])
            },
            files.drop_first(),
        );
    }
}

proof fn lemma_emit_once(
    s: Expanding,
    rule: RuleText,
    inputs: Seq<Seq<char>>,
    had_inputs: bool,
    dir_name: Seq<char>,
)
    requires
        all_once(s.done),
        inputs.no_duplicates(),
        s.emit(rule, inputs, had_inputs, dir_name) is Ok,
    ensures
        all_once(s.emit(rule, inputs, had_inputs, dir_name)->Ok_0.done),
{
    let done = s.emit(rule, inputs, had_inputs, dir_name)->Ok_0.done;
    assert forall|i: int| 0 <= i < done.len() implies (
    #[trigger] done[i]).inputs.no_duplicates() by {
        if i < s.done.len() {
            assert(done[i] == s.done[i]);
        }
    }
}

proof fn lemma_each_once(
    s: Expanding,
    rule: RuleText,
    inputs: Seq<Seq<char>>,
    dir_name: Seq<char>,
)
    requires
        all_once(s.done),
        s.emit_each(rule, inputs, dir_name) is Ok,
    ensures
        all_once(s.emit_each(rule, inputs, dir_name)->Ok_0.done),
    decreases inputs.len(),
{
    if inputs.len() > 0 {
        lemma_emit_once(s, rule, seq![inputs[0]], true, dir_name);
        lemma_each_once(
            s.emit(rule, seq![inputs[0]], true, dir_name)->Ok_0,
            rule,
            inputs.drop_first(),
            dir_name,
        );
    }
}

proof fn lemma_rules_once(s: Expanding, rules: Seq<RuleText>, around: Around)
    requires
        all_once(s.done),
        s.rules(rules, around) is Ok,
    ensures
        all_once(s.rules(rules, around)->Ok_0.done),
    decreases rules.len(),
{
    if rules.len() > 0 {
        let rule = rules[0];
        let next = s.rule(rule, around)->Ok_0;
        assert(all_once(next.done)) by {
            if !(rule.had_inputs && rule.inputs.len() == 0) {
                let inputs = open_bins(rule.inputs, s.bins);
                let found = expand_patterns(
                    Seq::empty(),
                    inputs,
                    around.listings,
                    s.declared,
                )->Ok_0;
                let files = without_repeats(Seq::empty(), found);
                lemma_without_repeats(Seq::empty(), found);
                if rule.foreach {
                    lemma_each_once(s, rule, files, around.dir_name);
                } else {
                    lemma_emit_once(s, rule, files, rule.had_inputs, around.dir_name);
                }
            }
        }
        lemma_rules_once(next, rules.drop_first(), around);
    }
}

/// No rule that rules expand to holds an input twice.
pub proof fn every_input_stands_once(rules: Seq<RuleText>, around: Around)
    ensures
        expanded_rules(rules, around) matches Ok(out) ==> forall|i: int|
            0 <= i < out.len() ==> (#[trigger] out[i]).inputs.no_duplicates(),
{
    if let Ok(out) = expanded_rules(rules, around) {
        let start = Expanding { done: Seq::empty(), declared: Seq::empty(), bins: Map::empty() };
        lemma_rules_once(start, rules, around);
    }
}

} // verus!
