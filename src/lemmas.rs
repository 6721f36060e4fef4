//! What holds of the engine across its operations.
use vstd::prelude::*;
use vstd::relations::sorted_by;
use vstd::seq_lib::{group_to_multiset_ensures, lemma_sorted_unique};
use crate::decimal::{decimal_text, i64_of_text, int_text,
    is_digit, lemma_decimal_text_reads_back, lemma_i64_text_round_trip};
use crate::path::{base_name, restore_target, strip_root};
use crate::stash::{absolute_path, entry_dir, index_selected, newest_first_order, selected,
    stash_entries, stash_target, timestamps};

verus! {

/// Listing is newest first: the entries are the timestamps that the names
/// denote, each as often as it occurs, and an earlier position never holds
/// an older timestamp than a later one.
pub proof fn lemma_entries_newest_first(names: Seq<String>)
    ensures
        stash_entries(names).to_multiset() == timestamps(names).to_multiset(),
        forall|i: int, j: int| 0 <= i < j < stash_entries(names).len()
            ==> #[trigger] stash_entries(names)[i] >= #[trigger] stash_entries(names)[j],
{
    timestamps(names).lemma_sort_by_ensures(newest_first_order());
    let e = stash_entries(names);
    assert forall|i: int, j: int| 0 <= i < j < e.len() implies #[trigger] e[i] >= #[trigger] e[j] by {
        assert((newest_first_order())(e[i], e[j]));
    }
}

/// An archive root without children, or whose children are all named
/// otherwise than by an integer, has no entries, and a listing of it shows
/// nothing whatever the selectors.
pub proof fn lemma_no_timestamps_no_entries(names: Seq<String>, selectors: Seq<String>)
    requires
        forall|i: int| 0 <= i < names.len() ==> i64_of_text(#[trigger] names[i]@) is None,
    ensures
        stash_entries(names).len() == 0,
        selected(stash_entries(names), selectors).len() == 0,
    decreases names.len(),
{
    broadcast use group_to_multiset_ensures;
    lemma_timestamps_empty(names);
    timestamps(names).lemma_sort_by_ensures(newest_first_order());
    assert(stash_entries(names).to_multiset().len() == 0);
    assert(selected(stash_entries(names), selectors) == Seq::<i64>::empty());
}

proof fn lemma_timestamps_empty(names: Seq<String>)
    requires
        forall|i: int| 0 <= i < names.len() ==> i64_of_text(#[trigger] names[i]@) is None,
    ensures
        timestamps(names) == Seq::<i64>::empty(),
    decreases names.len(),
{
    if names.len() > 0 {
        let p = names.drop_last();
        assert forall|i: int| 0 <= i < p.len() implies i64_of_text(#[trigger] p[i]@) is None by {
            assert(p[i] == names[i]);
        }
        lemma_timestamps_empty(p);
        assert(i64_of_text(names[names.len() - 1]@) is None);
    }
}

/// The directory that a stash creates at time `now`, alone in the archive
/// root, is listed as the one entry, with timestamp `now`.
pub proof fn lemma_new_entry_is_listed(names: Seq<String>, now: i64)
    requires
        names.len() == 1,
        names[0]@ == int_text(now as int),
    ensures
        stash_entries(names) == seq![now],
{
    broadcast use group_to_multiset_ensures;
    lemma_i64_text_round_trip(now);
    assert(names.drop_last() =~= Seq::<String>::empty());
    assert(names.last() == names[0]);
    assert(timestamps(names.drop_last()) == Seq::<i64>::empty());
    assert(i64_of_text(names.last()@) == Some(now));
    assert(timestamps(names) =~= seq![now]);
    let t = timestamps(names);
    t.lemma_sort_by_ensures(newest_first_order());
    crate::stash::lemma_order_total();
    assert(sorted_by(seq![now], newest_first_order()));
    lemma_sorted_unique(t, t.sort_by(newest_first_order()), newest_first_order());
}

proof fn lemma_int_text_shape(v: int)
    ensures
        int_text(v).len() > 0,
        int_text(v)[0] != '/',
        int_text(v).last() != '/',
{
    if v < 0 {
        let m: nat = (-v) as nat;
        lemma_decimal_text_reads_back(m);
        let d = decimal_text(m);
        assert(int_text(v).last() == d[d.len() - 1]);
        assert(is_digit(d[d.len() - 1]));
    } else {
        lemma_decimal_text_reads_back(v as nat);
        let d = decimal_text(v as nat);
        assert(is_digit(d[d.len() - 1]));
    }
}

proof fn lemma_base_name_after_separator(x: Seq<char>, y: Seq<char>)
    ensures
        base_name(x + seq!['/'] + y) == base_name(y),
    decreases y.len(),
{
    let z = x + seq!['/'] + y;
    if y.len() == 0 {
        assert(z.last() == '/');
    } else if y.last() == '/' {
        assert(z.last() == '/');
    } else {
        assert(z.drop_last() =~= x + seq!['/'] + y.drop_last());
        assert(z.last() == y.last());
        lemma_base_name_after_separator(x, y.drop_last());
    }
}

/// A file stashed at time `now` is stored under the entry's directory with
/// its own base name, and popping that entry brings it back to the absolute
/// path it had. The path has one leading separator and a name after it.
pub proof fn lemma_stash_then_restore(root: Seq<char>, now: i64, cwd: Seq<char>, file: Seq<char>)
    requires
        absolute_path(cwd, file).len() >= 2,
        absolute_path(cwd, file)[0] == '/',
        absolute_path(cwd, file)[1] != '/',
    ensures
        restore_target(entry_dir(root, now), stash_target(root, now, cwd, file))
            == Some(absolute_path(cwd, file)),
        base_name(stash_target(root, now, cwd, file)) == base_name(absolute_path(cwd, file)),
{
    let abs = absolute_path(cwd, file);
    let r = abs.drop_first();
    assert(strip_root(r) == r);
    assert(strip_root(abs) == r);
    lemma_int_text_shape(now as int);
    let it = int_text(now as int);
    let e = entry_dir(root, now);
    assert(e.len() > 0 && e.last() == it.last());
    let target = stash_target(root, now, cwd, file);
    assert(target == e + seq!['/'] + r);
    assert(target.subrange(0, e.len() as int) =~= e);
    assert(target.subrange(e.len() as int, target.len() as int) =~= abs);
    lemma_base_name_after_separator(e, r);
    lemma_base_name_after_separator(Seq::<char>::empty(), r);
    assert(Seq::<char>::empty() + seq!['/'] + r =~= abs);
}

proof fn lemma_decimal_text_injective(a: nat, b: nat)
    requires
        decimal_text(a) == decimal_text(b),
    ensures
        a == b,
{
    lemma_decimal_text_reads_back(a);
    lemma_decimal_text_reads_back(b);
}

/// A listing with the one selector `n`, written in decimal, shows exactly
/// the entry at position `n`, or nothing where there is none.
pub proof fn lemma_one_selector_selects_one(entries: Seq<i64>, selectors: Seq<String>, n: nat)
    requires
        selectors.len() == 1,
        selectors[0]@ == decimal_text(n),
    ensures
        selected(entries, selectors) == (if n < entries.len() { seq![entries[n as int]] } else { Seq::<i64>::empty() }),
    decreases entries.len(),
{
    if entries.len() > 0 {
        let last = (entries.len() - 1) as nat;
        lemma_one_selector_selects_one(entries.drop_last(), selectors, n);
        if index_selected(selectors, last) {
            let k = choose|k: int| 0 <= k < selectors.len() && #[trigger] selectors[k]@ == decimal_text(last);
            assert(k == 0);
            lemma_decimal_text_injective(n, last);
        } else {
            assert(!(selectors[0]@ == decimal_text(last)));
        }
        if n < entries.len() - 1 {
            assert(entries.drop_last()[n as int] == entries[n as int]);
        }
    }
}

} // verus!
