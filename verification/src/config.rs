//! Merging the configuration layers, and the edits made to a rules file.
use vstd::prelude::*;
use vstd::relations::sorted_by;

use crate::error::SwapxError;
use crate::models::{rules_view, strings_view, ConfigFile, Rule, RuleView};
use crate::order::{chars_order, lemma_chars_order_total, lemma_sorted_unique, sort_strings};
use crate::text::{chars_of, join_seq, join_strings, same_chars, string_of};

verus! {

broadcast use vstd::seq_lib::group_to_multiset_ensures;

/// The key under which rules override each other: the patterns sorted and
/// joined by NUL, so that the order in which they are written does not count.
pub open spec fn merge_key(patterns: Seq<Seq<char>>) -> Seq<char> {
    join_seq(patterns.sort_by(chars_order()), seq!['\0'])
}

/// A rule's merge key.
pub fn rule_merge_key(rule: &Rule) -> (k: String)
    ensures
        k@ == merge_key(rule@.patterns),
{
    let sorted = sort_strings(&rule.match_patterns);
    let sep = vec!['\0'];
    assert(sep@ == seq!['\0']);
    string_of(&join_strings(&sorted, &sep))
}

/// Patterns that are the same up to order, counted with multiplicity, give
/// the same merge key: `["a", "b"]` and `["b", "a"]` override each other.
pub proof fn lemma_merge_key_ignores_order(p: Seq<Seq<char>>, q: Seq<Seq<char>>)
    requires
        p.to_multiset() == q.to_multiset(),
    ensures
        merge_key(p) == merge_key(q),
{
    lemma_chars_order_total();
    p.lemma_sort_by_ensures(chars_order());
    q.lemma_sort_by_ensures(chars_order());
    lemma_sorted_unique(p.sort_by(chars_order()), q.sort_by(chars_order()));
}

/// No part holds the character `c`.
pub open spec fn free_of(parts: Seq<Seq<char>>, c: char) -> bool {
    forall|i: int, j: int| 0 <= i < parts.len() && 0 <= j < parts[i].len() ==> #[trigger] parts[i][j] != c
}

/// Joining by a character that no part holds can be undone: one list of
/// parts gives one joined text.
pub proof fn lemma_join_injective(a: Seq<Seq<char>>, b: Seq<Seq<char>>, c: char)
    requires
        a.len() > 0,
        b.len() > 0,
        free_of(a, c),
        free_of(b, c),
        join_seq(a, seq![c]) == join_seq(b, seq![c]),
    ensures
        a == b,
    decreases a.len(),
{
    let jn = join_seq(a, seq![c]);
    if a.len() == 1 && b.len() == 1 {
        assert(a =~= b);
    } else if a.len() == 1 {
        let xb = join_seq(b.drop_last(), seq![c]);
        assert(jn == xb + seq![c] + b.last());
        assert(jn[xb.len() as int] == c);
        assert(jn == a[0]);
        assert(a[0][xb.len() as int] != c);
    } else if b.len() == 1 {
        let xa = join_seq(a.drop_last(), seq![c]);
        assert(jn == xa + seq![c] + a.last());
        assert(jn[xa.len() as int] == c);
        assert(jn == b[0]);
        assert(b[0][xa.len() as int] != c);
    } else {
        let xa = join_seq(a.drop_last(), seq![c]);
        let xb = join_seq(b.drop_last(), seq![c]);
        let la = a.last();
        let lb = b.last();
        assert(jn == xa + seq![c] + la);
        assert(jn == xb + seq![c] + lb);
        if la.len() < lb.len() {
            let q = xa.len() as int;
            assert(jn[q] == c);
            assert(jn[q] == lb[q - xb.len() - 1]);
            assert(b[b.len() - 1][q - xb.len() - 1] != c);
        } else if lb.len() < la.len() {
            let q = xb.len() as int;
            assert(jn[q] == c);
            assert(jn[q] == la[q - xa.len() - 1]);
            assert(a[a.len() - 1][q - xa.len() - 1] != c);
        }
        assert(la.len() == lb.len());
        assert(la =~= jn.skip(xa.len() as int + 1));
        assert(lb =~= jn.skip(xb.len() as int + 1));
        assert(xa =~= jn.take(xa.len() as int));
        assert(xb =~= jn.take(xb.len() as int));
        assert(free_of(a.drop_last(), c)) by {
            assert forall|i: int, j: int|
                0 <= i < a.drop_last().len() && 0 <= j < a.drop_last()[i].len() implies #[trigger] a.drop_last()[i][j]
                != c by {
                assert(a.drop_last()[i] == a[i]);
            }
        }
        assert(free_of(b.drop_last(), c)) by {
            assert forall|i: int, j: int|
                0 <= i < b.drop_last().len() && 0 <= j < b.drop_last()[i].len() implies #[trigger] b.drop_last()[i][j]
                != c by {
                assert(b.drop_last()[i] == b[i]);
            }
        }
        lemma_join_injective(a.drop_last(), b.drop_last(), c);
        assert(a =~= a.drop_last().push(la));
        assert(b =~= b.drop_last().push(lb));
    }
}

/// Two non-empty pattern lists without NUL characters have the same merge
/// key exactly when they hold the same patterns, counted with multiplicity:
/// rules override each other exactly when their patterns agree up to order.
pub proof fn lemma_merge_key_same_iff(p: Seq<Seq<char>>, q: Seq<Seq<char>>)
    requires
        p.len() > 0,
        q.len() > 0,
        free_of(p, '\0'),
        free_of(q, '\0'),
    ensures
        merge_key(p) == merge_key(q) <==> p.to_multiset() == q.to_multiset(),
{
    if p.to_multiset() == q.to_multiset() {
        lemma_merge_key_ignores_order(p, q);
    }
    if merge_key(p) == merge_key(q) {
        lemma_chars_order_total();
        p.lemma_sort_by_ensures(chars_order());
        q.lemma_sort_by_ensures(chars_order());
        let sp = p.sort_by(chars_order());
        let sq = q.sort_by(chars_order());
        assert(sp.len() == p.len()) by {
            assert(sp.to_multiset().len() == p.to_multiset().len());
        }
        assert(sq.len() == q.len()) by {
            assert(sq.to_multiset().len() == q.to_multiset().len());
        }
        assert(free_of(sp, '\0')) by {
            assert forall|i: int, j: int| 0 <= i < sp.len() && 0 <= j < sp[i].len() implies #[trigger] sp[i][j]
                != '\0' by {
                assert(sp.contains(sp[i]));
                let k = choose|k: int| 0 <= k < p.len() && p[k] == sp[i];
                assert(p[k][j] != '\0');
            }
        }
        assert(free_of(sq, '\0')) by {
            assert forall|i: int, j: int| 0 <= i < sq.len() && 0 <= j < sq[i].len() implies #[trigger] sq[i][j]
                != '\0' by {
                assert(sq.contains(sq[i]));
                let k = choose|k: int| 0 <= k < q.len() && q[k] == sq[i];
                assert(q[k][j] != '\0');
            }
        }
        lemma_join_injective(sp, sq, '\0');
    }
}

/// The keys of `rules` are pairwise distinct.
pub open spec fn keys_distinct(rules: Seq<RuleView>) -> bool {
    forall|i: int, j: int|
        0 <= i < j < rules.len() ==> merge_key(#[trigger] rules[i].patterns) != merge_key(
            #[trigger] rules[j].patterns,
        )
}

/// `i` is the position of the rule with key `k`.
pub open spec fn key_at(rules: Seq<RuleView>, k: Seq<char>, i: int) -> bool {
    0 <= i < rules.len() && merge_key(rules[i].patterns) == k
}

/// `r` added to merged rules: it takes the place of the rule with the same
/// key, or comes last.
pub open spec fn merge_insert(acc: Seq<RuleView>, r: RuleView) -> Seq<RuleView> {
    let k = merge_key(r.patterns);
    if exists|i: int| key_at(acc, k, i) {
        acc.update(choose|i: int| key_at(acc, k, i), r)
    } else {
        acc.push(r)
    }
}

/// The rules merged in order: a later rule overrides an earlier one with the
/// same key, in its place.
pub open spec fn merged(rules: Seq<RuleView>) -> Seq<RuleView>
    decreases rules.len(),
{
    if rules.len() == 0 {
        seq![]
    } else {
        merge_insert(merged(rules.drop_last()), rules.last())
    }
}

/// Inserting into rules with distinct keys keeps the keys distinct.
pub proof fn lemma_merge_insert_distinct(acc: Seq<RuleView>, r: RuleView)
    requires
        keys_distinct(acc),
    ensures
        keys_distinct(merge_insert(acc, r)),
{
    let k = merge_key(r.patterns);
    let m = merge_insert(acc, r);
    if exists|i: int| key_at(acc, k, i) {
        let c = choose|i: int| key_at(acc, k, i);
        assert forall|i: int, j: int| 0 <= i < j < m.len() implies merge_key(
            #[trigger] m[i].patterns,
        ) != merge_key(#[trigger] m[j].patterns) by {
            if i == c {
                assert(merge_key(acc[i].patterns) != merge_key(acc[j].patterns));
            } else if j == c {
                assert(merge_key(acc[i].patterns) != merge_key(acc[j].patterns));
            } else {
                assert(merge_key(acc[i].patterns) != merge_key(acc[j].patterns));
            }
        }
    } else {
        assert forall|i: int, j: int| 0 <= i < j < m.len() implies merge_key(
            #[trigger] m[i].patterns,
        ) != merge_key(#[trigger] m[j].patterns) by {
            if j == acc.len() {
                assert(!key_at(acc, k, i));
            } else {
                assert(merge_key(acc[i].patterns) != merge_key(acc[j].patterns));
            }
        }
    }
}

/// The position of the rule whose key is `k`.
fn find_key(keys: &Vec<String>, k: &Vec<char>) -> (r: Option<usize>)
    ensures
        match r {
            Some(i) => i < keys.len() && keys@[i as int]@ == k@,
            None => forall|i: int| 0 <= i < keys.len() ==> keys@[i]@ != k@,
        },
{
    let mut i: usize = 0;
    while i < keys.len()
        invariant
            i <= keys.len(),
            forall|j: int| 0 <= j < i ==> keys@[j]@ != k@,
        decreases keys.len() - i,
    {
        if same_chars(&chars_of(keys[i].as_str()), k) {
            return Some(i);
        }
        i += 1;
    }
    None
}

/// Merges rule lists, later ones overriding earlier ones by key.
pub fn merge_rules(rules: &Vec<Rule>) -> (r: Vec<Rule>)
    ensures
        rules_view(r@) == merged(rules_view(rules@)),
        keys_distinct(rules_view(r@)),
{
    let ghost rv = rules_view(rules@);
    let mut acc: Vec<Rule> = Vec::new();
    let mut keys: Vec<String> = Vec::new();
    let mut i: usize = 0;
    assert(rv.take(0) =~= seq![]);
    assert(rules_view(acc@) =~= seq![]);
    while i < rules.len()
        invariant
            i <= rules.len(),
            rv == rules_view(rules@),
            rules_view(acc@) == merged(rv.take(i as int)),
            keys.len() == acc.len(),
            forall|j: int| 0 <= j < acc.len() ==> #[trigger] keys@[j]@ == merge_key(
                rules_view(acc@)[j].patterns,
            ),
            keys_distinct(rules_view(acc@)),
        decreases rules.len() - i,
    {
        assert(rv.take(i + 1).drop_last() == rv.take(i as int));
        assert(rv.take(i + 1).last() == rules@[i as int]@);
        let k = rule_merge_key(&rules[i]);
        let kc = chars_of(k.as_str());
        let ghost prev = rules_view(acc@);
        let ghost r = rules@[i as int]@;
        match find_key(&keys, &kc) {
            Some(j) => {
                assert(key_at(prev, k@, j as int));
                proof {
                    let c = choose|c: int| key_at(prev, k@, c);
                    if c != j {
                        if c < j {
                            assert(merge_key(prev[c].patterns) != merge_key(prev[j as int].patterns));
                        } else {
                            assert(merge_key(prev[j as int].patterns) != merge_key(prev[c].patterns));
                        }
                    }
                }
                proof {
                    lemma_merge_insert_distinct(prev, r);
                }
                acc.set(j, rules[i].duplicate());
                assert(rules_view(acc@) =~= prev.update(j as int, r));
            },
            None => {
                assert forall|c: int| !key_at(prev, k@, c) by {
                    if 0 <= c < prev.len() {
                        assert(keys@[c]@ == merge_key(prev[c].patterns));
                    }
                }
                proof {
                    lemma_merge_insert_distinct(prev, r);
                }
                acc.push(rules[i].duplicate());
                keys.push(k);
                assert(rules_view(acc@) =~= prev.push(r));
            },
        }
        i += 1;
    }
    assert(rv.take(rules.len() as int) == rv);
    acc
}


/// `i` is the last position of its key in `rules`.
pub open spec fn last_of_key(rules: Seq<RuleView>, i: int) -> bool {
    0 <= i < rules.len() && forall|j: int|
        i < j < rules.len() ==> merge_key(#[trigger] rules[j].patterns) != merge_key(
            rules[i].patterns,
        )
}

/// Merged rules never hold two rules with the same key.
pub proof fn lemma_merged_keys_distinct(rules: Seq<RuleView>)
    ensures
        keys_distinct(merged(rules)),
    decreases rules.len(),
{
    if rules.len() > 0 {
        lemma_merged_keys_distinct(rules.drop_last());
        lemma_merge_insert_distinct(merged(rules.drop_last()), rules.last());
    }
}

/// The last rule with a given key survives the merge.
pub proof fn lemma_last_rule_wins(rules: Seq<RuleView>, i: int)
    requires
        last_of_key(rules, i),
    ensures
        merged(rules).contains(rules[i]),
    decreases rules.len(),
{
    let n = rules.len() - 1;
    let prev = merged(rules.drop_last());
    let k = merge_key(rules[n].patterns);
    if i == n {
        if exists|c: int| key_at(prev, k, c) {
            let c = choose|c: int| key_at(prev, k, c);
            assert(merged(rules)[c] == rules[i]);
        } else {
            assert(merged(rules)[prev.len() as int] == rules[i]);
        }
    } else {
        assert(last_of_key(rules.drop_last(), i)) by {
            assert forall|j: int| i < j < rules.drop_last().len() implies merge_key(
                #[trigger] rules.drop_last()[j].patterns,
            ) != merge_key(rules.drop_last()[i].patterns) by {
                assert(merge_key(rules[j].patterns) != merge_key(rules[i].patterns));
            }
        }
        lemma_last_rule_wins(rules.drop_last(), i);
        let m = choose|m: int| 0 <= m < prev.len() && prev[m] == rules[i];
        assert(merge_key(rules[n].patterns) != merge_key(rules[i].patterns));
        if exists|c: int| key_at(prev, k, c) {
            let c = choose|c: int| key_at(prev, k, c);
            assert(c != m);
            assert(merged(rules)[m] == rules[i]);
        } else {
            assert(merged(rules)[m] == rules[i]);
        }
    }
}

/// Every merged rule is the last input rule with its key.
pub proof fn lemma_merged_rule_is_last(rules: Seq<RuleView>, m: int)
    requires
        0 <= m < merged(rules).len(),
    ensures
        exists|i: int| last_of_key(rules, i) && rules[i] == merged(rules)[m],
    decreases rules.len(),
{
    let n = rules.len() - 1;
    let prev = merged(rules.drop_last());
    let k = merge_key(rules[n].patterns);
    lemma_merged_keys_distinct(rules.drop_last());
    if exists|c: int| key_at(prev, k, c) {
        let c = choose|c: int| key_at(prev, k, c);
        if m == c {
            assert(last_of_key(rules, n));
        } else {
            lemma_merged_rule_is_last(rules.drop_last(), m);
            let i = choose|i: int| last_of_key(rules.drop_last(), i) && rules.drop_last()[i]
                == prev[m];
            if m < c {
                assert(merge_key(prev[m].patterns) != merge_key(prev[c].patterns));
            } else {
                assert(merge_key(prev[c].patterns) != merge_key(prev[m].patterns));
            }
            assert(last_of_key(rules, i)) by {
                assert forall|j: int| i < j < rules.len() implies merge_key(
                    #[trigger] rules[j].patterns,
                ) != merge_key(rules[i].patterns) by {
                    if j < n {
                        assert(merge_key(rules.drop_last()[j].patterns) != merge_key(
                            rules.drop_last()[i].patterns,
                        ));
                    }
                }
            }
        }
    } else {
        if m == prev.len() {
            assert(last_of_key(rules, n));
        } else {
            lemma_merged_rule_is_last(rules.drop_last(), m);
            let i = choose|i: int| last_of_key(rules.drop_last(), i) && rules.drop_last()[i]
                == prev[m];
            assert(!key_at(prev, k, m));
            assert(last_of_key(rules, i)) by {
                assert forall|j: int| i < j < rules.len() implies merge_key(
                    #[trigger] rules[j].patterns,
                ) != merge_key(rules[i].patterns) by {
                    if j < n {
                        assert(merge_key(rules.drop_last()[j].patterns) != merge_key(
                            rules.drop_last()[i].patterns,
                        ));
                    }
                }
            }
        }
    }
}

/// Some rule of `rules` has the key `k`.
pub open spec fn has_key(rules: Seq<RuleView>, k: Seq<char>) -> bool {
    exists|m: int| key_at(rules, k, m)
}

/// Every key of the input is the key of some merged rule.
pub proof fn lemma_merged_keeps_keys(rules: Seq<RuleView>, i: int)
    requires
        0 <= i < rules.len(),
    ensures
        has_key(merged(rules), merge_key(rules[i].patterns)),
    decreases rules.len(),
{
    let n = rules.len() - 1;
    let prev = merged(rules.drop_last());
    let r = rules.last();
    let k = merge_key(r.patterns);
    if i == n {
        if exists|c: int| key_at(prev, k, c) {
            let c = choose|c: int| key_at(prev, k, c);
            assert(merged(rules)[c] == r);
            assert(key_at(merged(rules), k, c));
        } else {
            assert(merged(rules)[prev.len() as int] == r);
            assert(key_at(merged(rules), k, prev.len() as int));
        }
    } else {
        let ki = merge_key(rules[i].patterns);
        assert(rules.drop_last()[i] == rules[i]);
        lemma_merged_keeps_keys(rules.drop_last(), i);
        let m = choose|m: int| key_at(prev, ki, m);
        if exists|c: int| key_at(prev, k, c) {
            let c = choose|c: int| key_at(prev, k, c);
            if c == m {
                assert(key_at(merged(rules), ki, m));
            } else {
                assert(merged(rules)[m] == prev[m]);
                assert(key_at(merged(rules), ki, m));
            }
        } else {
            assert(merged(rules)[m] == prev[m]);
            assert(key_at(merged(rules), ki, m));
        }
    }
}

/// The configuration in effect, from the global file `g`, the personal
/// global file `p` and the local file `l`: no two of its rules share a key,
/// every key of the three files is there, and each rule there is the last
/// rule with its key in `g`, then `p`, then `l` (so a local rule beats a
/// personal one, which beats a global one, and within a file a later rule
/// beats an earlier one).
pub proof fn lemma_three_layer_merge(g: Seq<RuleView>, p: Seq<RuleView>, l: Seq<RuleView>)
    ensures
        keys_distinct(merged(g + p + l)),
        forall|i: int|
            0 <= i < (g + p + l).len() ==> has_key(
                merged(g + p + l),
                merge_key(#[trigger] (g + p + l)[i].patterns),
            ),
        forall|m: int|
            0 <= m < merged(g + p + l).len() ==> exists|i: int|
                last_of_key(g + p + l, i) && (g + p + l)[i] == #[trigger] merged(g + p + l)[m],
{
    let all = g + p + l;
    lemma_merged_keys_distinct(all);
    assert forall|i: int| 0 <= i < all.len() implies has_key(
        merged(all),
        merge_key(#[trigger] all[i].patterns),
    ) by {
        lemma_merged_keeps_keys(all, i);
    }
    assert forall|m: int| 0 <= m < merged(all).len() implies exists|i: int|
        last_of_key(all, i) && all[i] == #[trigger] merged(all)[m] by {
        lemma_merged_rule_is_last(all, m);
    }
}

/// The rules of an optional layer.
pub open spec fn layer_rules(layer: Option<ConfigFile>) -> Seq<RuleView> {
    match layer {
        Some(c) => c@,
        None => seq![],
    }
}

/// The rules of a layer, copied.
fn copy_layer_into(all: &mut Vec<Rule>, layer: &Option<ConfigFile>)
    ensures
        rules_view(final(all)@) == rules_view(old(all)@) + layer_rules(*layer),
{
    match layer {
        None => {
            assert(rules_view(all@) =~= rules_view(all@) + seq![]);
        },
        Some(c) => {
            let ghost start = rules_view(all@);
            let mut i: usize = 0;
            while i < c.rules.len()
                invariant
                    i <= c.rules.len(),
                    rules_view(all@) == start + rules_view(c.rules@).take(i as int),
                decreases c.rules.len() - i,
            {
                let ghost before = all@;
                let x = c.rules[i].duplicate();
                all.push(x);
                assert(all@ == before.push(x));
                assert(rules_view(all@) =~= rules_view(before).push(x@));
                assert(rules_view(c.rules@).take(i + 1) =~= rules_view(c.rules@).take(
                    i as int,
                ).push(c.rules@[i as int]@));
                i += 1;
            }
            assert(rules_view(c.rules@).take(c.rules.len() as int) =~= rules_view(c.rules@));
        },
    }
}

/// The configuration in effect: the global rules, overridden by the rules of
/// the personal global file, overridden by the local rules, rule by rule
/// according to their merge keys. A missing layer contributes nothing.
pub fn load_merged_config(
    global: &Option<ConfigFile>,
    plk: &Option<ConfigFile>,
    local: &Option<ConfigFile>,
) -> (c: ConfigFile)
    ensures
        c@ == merged(layer_rules(*global) + layer_rules(*plk) + layer_rules(*local)),
        keys_distinct(c@),
{
    let mut all: Vec<Rule> = Vec::new();
    assert(rules_view(all@) =~= seq![]);
    copy_layer_into(&mut all, global);
    copy_layer_into(&mut all, plk);
    copy_layer_into(&mut all, local);
    assert(rules_view(all@) =~= layer_rules(*global) + layer_rules(*plk) + layer_rules(*local));
    ConfigFile { rules: merge_rules(&all) }
}

/// Local rules win: a rule of the local layer (the last there with its key)
/// is in the merged configuration, and no other rule with its key is.
pub proof fn lemma_local_overrides_global(
    global: Seq<RuleView>,
    plk: Seq<RuleView>,
    local: Seq<RuleView>,
    i: int,
)
    requires
        last_of_key(local, i),
    ensures
        merged(global + plk + local).contains(local[i]),
        forall|m: int|
            0 <= m < merged(global + plk + local).len() && merge_key(
                #[trigger] merged(global + plk + local)[m].patterns,
            ) == merge_key(local[i].patterns) ==> merged(global + plk + local)[m] == local[i],
{
    let all = global + plk + local;
    let off = global.len() + plk.len();
    assert(all[off + i] == local[i]);
    assert(last_of_key(all, off + i)) by {
        assert forall|j: int| off + i < j < all.len() implies merge_key(
            #[trigger] all[j].patterns,
        ) != merge_key(all[off + i].patterns) by {
            assert(all[j] == local[j - off]);
        }
    }
    lemma_last_rule_wins(all, off + i);
    lemma_merged_keys_distinct(all);
    let w = choose|w: int| 0 <= w < merged(all).len() && merged(all)[w] == local[i];
    assert forall|m: int|
        0 <= m < merged(all).len() && merge_key(#[trigger] merged(all)[m].patterns) == merge_key(
            local[i].patterns,
        ) implies merged(all)[m] == local[i] by {
        if m < w {
            assert(merge_key(merged(all)[m].patterns) != merge_key(merged(all)[w].patterns));
        } else if w < m {
            assert(merge_key(merged(all)[w].patterns) != merge_key(merged(all)[m].patterns));
        }
    }
}


/// `r` has `p` among its patterns, exactly.
pub open spec fn has_pattern(r: RuleView, p: Seq<char>) -> bool {
    r.patterns.contains(p)
}

/// `i` is the first rule with pattern `p`.
pub open spec fn first_with_pattern(rules: Seq<RuleView>, p: Seq<char>, i: int) -> bool {
    0 <= i < rules.len() && has_pattern(rules[i], p) && forall|j: int|
        0 <= j < i ==> !has_pattern(#[trigger] rules[j], p)
}

/// The rule, enabled or disabled.
pub open spec fn with_enabled(r: RuleView, e: bool) -> RuleView {
    RuleView { patterns: r.patterns, regex: r.regex, enabled: e, dir: r.dir, replace: r.replace }
}

/// The rules with the first rule that has pattern `p` enabled or disabled;
/// unchanged when no rule has it.
pub open spec fn toggled(rules: Seq<RuleView>, p: Seq<char>, e: bool) -> Seq<RuleView> {
    if exists|i: int| first_with_pattern(rules, p, i) {
        let i = choose|i: int| first_with_pattern(rules, p, i);
        rules.update(i, with_enabled(rules[i], e))
    } else {
        rules
    }
}

/// Enabling or disabling by a pattern acts on the first rule that has it
/// among its patterns, whichever of them it is: that rule's `enabled`
/// becomes `e`, and nothing else changes.
pub proof fn lemma_toggle_by_any_pattern(rules: Seq<RuleView>, p: Seq<char>, e: bool, i: int, j: int)
    requires
        0 <= i < rules.len(),
        0 <= j < rules[i].patterns.len(),
        rules[i].patterns[j] == p,
        forall|k: int, l: int|
            0 <= k < i && 0 <= l < rules[k].patterns.len() ==> #[trigger] rules[k].patterns[l] != p,
    ensures
        toggled(rules, p, e) == rules.update(
            i,
            RuleView {
                patterns: rules[i].patterns,
                regex: rules[i].regex,
                enabled: e,
                dir: rules[i].dir,
                replace: rules[i].replace,
            },
        ),
{
    assert(first_with_pattern(rules, p, i)) by {
        assert(rules[i].patterns.contains(p));
        assert forall|k: int| 0 <= k < i implies !has_pattern(#[trigger] rules[k], p) by {
            if rules[k].patterns.contains(p) {
                let l = choose|l: int| 0 <= l < rules[k].patterns.len() && rules[k].patterns[l] == p;
                assert(rules[k].patterns[l] != p);
            }
        }
    }
    let c = choose|c: int| first_with_pattern(rules, p, c);
    lemma_first_with_pattern_unique(rules, p, i, c);
}

/// A pattern that no rule has changes nothing.
pub proof fn lemma_toggle_unknown_pattern(rules: Seq<RuleView>, p: Seq<char>, e: bool)
    requires
        forall|k: int, l: int|
            0 <= k < rules.len() && 0 <= l < rules[k].patterns.len() ==> #[trigger] rules[k].patterns[l] != p,
    ensures
        toggled(rules, p, e) == rules,
{
    if exists|c: int| first_with_pattern(rules, p, c) {
        let c = choose|c: int| first_with_pattern(rules, p, c);
        let l = choose|l: int| 0 <= l < rules[c].patterns.len() && rules[c].patterns[l] == p;
        assert(rules[c].patterns[l] != p);
    }
}

proof fn lemma_first_with_pattern_unique(rules: Seq<RuleView>, p: Seq<char>, i: int, j: int)
    requires
        first_with_pattern(rules, p, i),
        first_with_pattern(rules, p, j),
    ensures
        i == j,
{
    if i < j {
        assert(!has_pattern(rules[i], p));
    } else if j < i {
        assert(!has_pattern(rules[j], p));
    }
}

/// Whether `rule` has `p` among its patterns.
fn rule_has_pattern(rule: &Rule, p: &Vec<char>) -> (b: bool)
    ensures
        b == has_pattern(rule@, p@),
        b == exists|j: int| 0 <= j < rule@.patterns.len() && rule@.patterns[j] == p@,
{
    let mut i: usize = 0;
    while i < rule.match_patterns.len()
        invariant
            i <= rule.match_patterns.len(),
            forall|j: int| 0 <= j < i ==> rule@.patterns[j] != p@,
        decreases rule.match_patterns.len() - i,
    {
        if same_chars(&chars_of(rule.match_patterns[i].as_str()), p) {
            assert(rule@.patterns[i as int] == p@);
            return true;
        }
        i += 1;
    }
    assert(!rule@.patterns.contains(p@)) by {
        if rule@.patterns.contains(p@) {
            let j = choose|j: int| 0 <= j < rule@.patterns.len() && rule@.patterns[j] == p@;
            assert(rule@.patterns[j] != p@);
        }
    }
    false
}

/// Enables or disables the first rule that has `pattern` among its match
/// patterns; tells whether there was one.
pub fn set_rule_enabled(rules: &mut Vec<Rule>, pattern: &str, enabled: bool) -> (found: bool)
    ensures
        found == exists|i: int| 0 <= i < old(rules)@.len() && has_pattern(
            #[trigger] rules_view(old(rules)@)[i],
            pattern@,
        ),
        found == exists|i: int, j: int|
            0 <= i < old(rules)@.len() && 0 <= j < rules_view(old(rules)@)[i].patterns.len()
                && #[trigger] rules_view(old(rules)@)[i].patterns[j] == pattern@,
        rules_view(final(rules)@) == toggled(rules_view(old(rules)@), pattern@, enabled),
{
    let ghost rv = rules_view(rules@);
    let p = chars_of(pattern);
    let mut i: usize = 0;
    while i < rules.len()
        invariant
            i <= rules.len(),
            rv == rules_view(rules@),
            rules@ == old(rules)@,
            p@ == pattern@,
            forall|j: int| 0 <= j < i ==> !has_pattern(#[trigger] rv[j], p@),
        decreases rules.len() - i,
    {
        if rule_has_pattern(&rules[i], &p) {
            assert(first_with_pattern(rv, p@, i as int));
            assert(has_pattern(rules_view(old(rules)@)[i as int], pattern@));
            proof {
                let c = choose|c: int| first_with_pattern(rv, p@, c);
                lemma_first_with_pattern_unique(rv, p@, i as int, c);
            }
            let mut r = rules[i].duplicate();
            r.enabled = enabled;
            rules.set(i, r);
            assert(rules_view(rules@) =~= rv.update(i as int, with_enabled(rv[i as int], enabled)));
            return true;
        }
        i += 1;
    }
    assert(!exists|c: int| first_with_pattern(rv, p@, c));
    false
}

/// Setting the state twice is setting it once, to the second state.
pub proof fn lemma_toggle_last_wins(rules: Seq<RuleView>, p: Seq<char>, a: bool, b: bool)
    ensures
        toggled(toggled(rules, p, a), p, b) == toggled(rules, p, b),
{
    if exists|i: int| first_with_pattern(rules, p, i) {
        let i = choose|i: int| first_with_pattern(rules, p, i);
        let once = toggled(rules, p, a);
        assert(first_with_pattern(once, p, i)) by {
            assert forall|j: int| 0 <= j < i implies !has_pattern(#[trigger] once[j], p) by {
                assert(once[j] == rules[j]);
            }
        }
        let c = choose|c: int| first_with_pattern(once, p, c);
        lemma_first_with_pattern_unique(once, p, i, c);
        assert(toggled(once, p, b) =~= toggled(rules, p, b));
    } else {
    }
}

/// Disabling a rule and enabling it again gives back the rules as they
/// were, when the rule was enabled; enabling then disabling likewise.
pub proof fn lemma_toggle_restores(rules: Seq<RuleView>, p: Seq<char>, i: int, e: bool)
    requires
        first_with_pattern(rules, p, i),
    ensures
        toggled(toggled(rules, p, e), p, rules[i].enabled) == rules,
{
    lemma_toggle_last_wins(rules, p, e, rules[i].enabled);
    let c = choose|c: int| first_with_pattern(rules, p, c);
    lemma_first_with_pattern_unique(rules, p, i, c);
    assert(toggled(rules, p, rules[i].enabled) =~= rules);
}

/// The error when no rule has the pattern.
pub fn no_rule_error(pattern: &str) -> (e: SwapxError)
    ensures
        e matches SwapxError::Config(m) && m@ == no_rule_message(pattern@),
{
    let mut m = "No rule found with match pattern: \"".to_owned();
    m.append(pattern);
    m.append("\"");
    SwapxError::Config(m)
}

/// The message of the error when no rule has the pattern.
pub open spec fn no_rule_message(p: Seq<char>) -> Seq<char> {
    "No rule found with match pattern: \""@ + p + "\""@
}


/// `i` is the first rule whose key is `k`.
pub open spec fn first_with_key(rules: Seq<RuleView>, k: Seq<char>, i: int) -> bool {
    key_at(rules, k, i) && forall|j: int| 0 <= j < i ==> !key_at(rules, k, j)
}

/// The rules with `r` in place of the first rule with its key, or `r`
/// appended when there is none.
pub open spec fn upserted(rules: Seq<RuleView>, r: RuleView) -> Seq<RuleView> {
    let k = merge_key(r.patterns);
    if exists|i: int| first_with_key(rules, k, i) {
        rules.update(choose|i: int| first_with_key(rules, k, i), r)
    } else {
        rules.push(r)
    }
}

proof fn lemma_first_with_key_unique(rules: Seq<RuleView>, k: Seq<char>, i: int, j: int)
    requires
        first_with_key(rules, k, i),
        first_with_key(rules, k, j),
    ensures
        i == j,
{
    if i < j {
        assert(!key_at(rules, k, i));
    } else if j < i {
        assert(!key_at(rules, k, j));
    }
}

/// Puts `rule` in place of the first rule with the same merge key, or
/// appends it.
pub fn upsert_rule(rules: &mut Vec<Rule>, rule: Rule)
    ensures
        rules_view(final(rules)@) == upserted(rules_view(old(rules)@), rule@),
{
    let ghost rv = rules_view(rules@);
    let new_key = chars_of(rule_merge_key(&rule).as_str());
    let mut i: usize = 0;
    while i < rules.len()
        invariant
            i <= rules.len(),
            rv == rules_view(rules@),
            rules@ == old(rules)@,
            new_key@ == merge_key(rule@.patterns),
            forall|j: int| 0 <= j < i ==> !key_at(rv, new_key@, j),
        decreases rules.len() - i,
    {
        let k = chars_of(rule_merge_key(&rules[i]).as_str());
        if same_chars(&k, &new_key) {
            assert(first_with_key(rv, new_key@, i as int));
            proof {
                let c = choose|c: int| first_with_key(rv, new_key@, c);
                lemma_first_with_key_unique(rv, new_key@, i as int, c);
            }
            let ghost r = rule@;
            rules.set(i, rule);
            assert(rules_view(rules@) =~= rv.update(i as int, r));
            return ;
        }
        i += 1;
    }
    assert(!exists|c: int| first_with_key(rv, new_key@, c));
    let ghost r = rule@;
    rules.push(rule);
    assert(rules_view(rules@) =~= rv.push(r));
}

/// Saving a rule leaves it in the rules, at the place of the first rule
/// with its key.
pub proof fn lemma_upserted_contains(rules: Seq<RuleView>, r: RuleView)
    ensures
        upserted(rules, r).contains(r),
        exists|i: int| first_with_key(upserted(rules, r), merge_key(r.patterns), i) && upserted(
            rules,
            r,
        )[i] == r,
{
    let k = merge_key(r.patterns);
    let u = upserted(rules, r);
    if exists|i: int| first_with_key(rules, k, i) {
        let i = choose|i: int| first_with_key(rules, k, i);
        assert(u[i] == r);
        assert(first_with_key(u, k, i)) by {
            assert forall|j: int| 0 <= j < i implies !key_at(u, k, j) by {
                assert(u[j] == rules[j]);
                assert(!key_at(rules, k, j));
            }
        }
    } else {
        let i = rules.len() as int;
        assert(u[i] == r);
        assert(first_with_key(u, k, i)) by {
            assert forall|j: int| 0 <= j < i implies !key_at(u, k, j) by {
                assert(u[j] == rules[j]);
                assert(!first_with_key(rules, k, j));
                if key_at(rules, k, j) {
                    lemma_first_key_exists(rules, k, j);
                }
            }
        }
    }
}

/// When some rule has key `k`, there is a first one.
proof fn lemma_first_key_exists(rules: Seq<RuleView>, k: Seq<char>, j: int)
    requires
        key_at(rules, k, j),
    ensures
        exists|i: int| first_with_key(rules, k, i),
    decreases j,
{
    if forall|m: int| 0 <= m < j ==> !key_at(rules, k, m) {
        assert(first_with_key(rules, k, j));
    } else {
        let m = choose|m: int| 0 <= m < j && key_at(rules, k, m);
        lemma_first_key_exists(rules, k, m);
    }
}

/// Saving the same rule twice is saving it once.
pub proof fn lemma_upsert_idempotent(rules: Seq<RuleView>, r: RuleView)
    ensures
        upserted(upserted(rules, r), r) == upserted(rules, r),
{
    let k = merge_key(r.patterns);
    let u = upserted(rules, r);
    lemma_upserted_contains(rules, r);
    let i = choose|i: int| first_with_key(u, k, i) && u[i] == r;
    let c = choose|c: int| first_with_key(u, k, c);
    lemma_first_with_key_unique(u, k, i, c);
    assert(upserted(u, r) =~= u.update(i, r));
    assert(u.update(i, r) =~= u);
}


/// What `init` does with a file that already exists.
#[derive(Debug)]
pub enum InitOverwrite {
    /// Ask the user for each file.
    Prompt,
    /// Overwrite without asking.
    Force,
    /// Refuse: the configuration is already initialized.
    Error,
}

/// How `init` treats existing files: `--force` overwrites them, a user at a
/// terminal is asked, and otherwise `init` refuses.
pub fn init_overwrite(force: bool, is_tty: bool) -> (o: InitOverwrite)
    ensures
        force ==> o is Force,
        !force && is_tty ==> o is Prompt,
        !force && !is_tty ==> o is Error,
{
    if force {
        InitOverwrite::Force
    } else if is_tty {
        InitOverwrite::Prompt
    } else {
        InitOverwrite::Error
    }
}

/// What `init` did with a file.
#[derive(Debug)]
pub enum InitAction {
    Created(String),
    Replaced(String),
    Skipped(String),
}

/// What to do with a file that `init` writes.
#[derive(Debug)]
pub enum WriteDecision {
    /// Write it, recording the action.
    Write(InitAction),
    /// Ask the user whether to replace it.
    Ask,
    /// Stop with this error.
    Refuse(SwapxError),
}

/// The message refusing to initialize again.
pub open spec fn already_exists_message(path: Seq<char>) -> Seq<char> {
    path + " already exists (already initialized)"@
}

/// What `init` does with the file `path` in the configuration directory
/// `dir`. Without `--force` or a user to ask, `init` refuses once the
/// directory exists (it is already initialized), so that nothing is written.
/// Otherwise a missing file is created, and an existing one is replaced when
/// forced or left to the user when prompting.
pub fn write_decision(
    dir: &str,
    dir_exists: bool,
    path: &str,
    exists: bool,
    overwrite: &InitOverwrite,
) -> (d: WriteDecision)
    ensures
        overwrite is Error && dir_exists ==> (d matches WriteDecision::Refuse(e)
            && e matches SwapxError::Config(m) && m@ == already_exists_message(dir@)),
        overwrite is Error && !dir_exists && exists ==> (d matches WriteDecision::Refuse(e)
            && e matches SwapxError::Config(m) && m@ == already_exists_message(path@)),
        overwrite is Error && !dir_exists && !exists ==> (d matches WriteDecision::Write(
            InitAction::Created(p),
        ) && p@ == path@),
        !(overwrite is Error) && !exists ==> (d matches WriteDecision::Write(InitAction::Created(p))
            && p@ == path@),
        overwrite is Force && exists ==> (d matches WriteDecision::Write(InitAction::Replaced(p))
            && p@ == path@),
        overwrite is Prompt && exists ==> d is Ask,
{
    match overwrite {
        InitOverwrite::Error => {
            if dir_exists || exists {
                let mut m = if dir_exists {
                    dir.to_owned()
                } else {
                    path.to_owned()
                };
                m.append(" already exists (already initialized)");
                WriteDecision::Refuse(SwapxError::Config(m))
            } else {
                WriteDecision::Write(InitAction::Created(path.to_owned()))
            }
        },
        InitOverwrite::Force => if exists {
            WriteDecision::Write(InitAction::Replaced(path.to_owned()))
        } else {
            WriteDecision::Write(InitAction::Created(path.to_owned()))
        },
        InitOverwrite::Prompt => if exists {
            WriteDecision::Ask
        } else {
            WriteDecision::Write(InitAction::Created(path.to_owned()))
        },
    }
}

/// The question asked before replacing an existing file.
pub fn replace_question(path: &str) -> (q: String)
    ensures
        q@ == path@ + " already exists. Replace with defaults?"@,
{
    let mut q = path.to_owned();
    q.append(" already exists. Replace with defaults?");
    q
}

/// The user's answer: replace the file, or leave it.
pub fn answer_decision(path: &str, confirmed: bool) -> (d: WriteDecision)
    ensures
        confirmed ==> (d matches WriteDecision::Write(InitAction::Replaced(p)) && p@ == path@),
        !confirmed ==> (d matches WriteDecision::Write(InitAction::Skipped(p)) && p@ == path@),
{
    if confirmed {
        WriteDecision::Write(InitAction::Replaced(path.to_owned()))
    } else {
        WriteDecision::Write(InitAction::Skipped(path.to_owned()))
    }
}

/// The rules file that `init` writes: no rules, with commented examples.
pub const EXAMPLE_RULES_YAML: &'static str = "# swapx rules configuration
# Uncomment and modify the examples below, or use `swapx suggest` to auto-generate rules.
#
# rules:
#   - match: \"git checkout\"
#     replace:
#       - label: use-switch
#         with: \"git switch\"
#         default: true
#   - match: \"python \"
#     replace:
#       - label: use-python3
#         with: \"python3 \"
#         default: true
rules: []
";

} // verus!
