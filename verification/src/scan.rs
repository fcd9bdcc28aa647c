//! Picks, out of the stash entries, those whose diff holds a pattern, and
//! puts them in the order of their numbers.

use crate::bm::{is_search_result, occurs, search};
use crate::git_stash::{entries_of, GitStash, StashEntry};
use vstd::prelude::*;
use vstd::string::*;

verus! {

/// The diff of `entry` holds `pattern`.
pub open spec fn is_match(entry: StashEntry, pattern: Seq<u8>) -> bool {
    occurs(entry.diff(), pattern)
}

/// An entry matches exactly where the search in its diff finds the pattern.
pub proof fn lemma_match_is_found(entry: StashEntry, pattern: Seq<u8>, result: Option<usize>)
    requires
        is_search_result(entry.diff(), pattern, result),
    ensures
        is_match(entry, pattern) <==> result is Some,
{
}

/// The entry at place `i` comes before the one at place `j` in the result:
/// it has the smaller number, or the same number and the earlier place.
pub open spec fn comes_before(entries: Seq<StashEntry>, i: int, j: int) -> bool {
    entries[i].number < entries[j].number || (entries[i].number == entries[j].number && i < j)
}

/// `found` is the selection from `entries` for `pattern`, and `picks` names
/// the place in `entries` that each of its members was taken from: the
/// members are the entries that match, each once, in the order of their
/// numbers, and in the order of `entries` where numbers are equal.
pub open spec fn is_selection(
    entries: Seq<StashEntry>,
    pattern: Seq<u8>,
    found: Seq<StashEntry>,
    picks: Seq<int>,
) -> bool {
    &&& picks.len() == found.len()
    &&& forall|k: int|
        0 <= k < picks.len() ==> 0 <= #[trigger] picks[k] < entries.len() && found[k]
            == entries[picks[k]]
    &&& forall|k: int, l: int|
        0 <= k < l < picks.len() ==> comes_before(entries, #[trigger] picks[k], #[trigger] picks[l])
    &&& forall|i: int|
        0 <= i < entries.len() ==> (is_match(#[trigger] entries[i], pattern) <==> picks.contains(i))
}

/// `found` holds the entries of `entries` that match `pattern`, each once,
/// in the order of their numbers, and in the order of `entries` where
/// numbers are equal.
pub open spec fn is_report(entries: Seq<StashEntry>, pattern: Seq<u8>, found: Seq<StashEntry>) -> bool {
    exists|picks: Seq<int>| is_selection(entries, pattern, found, picks)
}

/// No two entries have the same number.
pub open spec fn distinct_numbers(entries: Seq<StashEntry>) -> bool {
    forall|i: int, j: int|
        0 <= i < j < entries.len() ==> (#[trigger] entries[i]).number != (
        #[trigger] entries[j]).number
}

/// The numbers do not fall along `entries`.
pub open spec fn ascending(entries: Seq<StashEntry>) -> bool {
    forall|k: int, l: int|
        0 <= k < l < entries.len() ==> (#[trigger] entries[k]).number <= (
        #[trigger] entries[l]).number
}

/// The numbers rise along `entries`.
pub open spec fn strictly_ascending(entries: Seq<StashEntry>) -> bool {
    forall|k: int, l: int|
        0 <= k < l < entries.len() ==> (#[trigger] entries[k]).number < (
        #[trigger] entries[l]).number
}

/// A selection is in the order of its numbers, and in strict order where
/// no two entries share a number.
pub proof fn lemma_selection_ascends(
    entries: Seq<StashEntry>,
    pattern: Seq<u8>,
    found: Seq<StashEntry>,
    picks: Seq<int>,
)
    requires
        is_selection(entries, pattern, found, picks),
    ensures
        ascending(found),
        distinct_numbers(entries) ==> strictly_ascending(found),
{
    assert forall|k: int, l: int| 0 <= k < l < found.len() implies (#[trigger] found[k]).number <= (
    #[trigger] found[l]).number && (distinct_numbers(entries) ==> found[k].number
        < found[l].number) by {
        assert(comes_before(entries, picks[k], picks[l]));
        if distinct_numbers(entries) && found[k].number == found[l].number {
            assert(entries[picks[k]].number != entries[picks[l]].number);
        }
    }
}

/// A selection holds matching entries only, and every entry that matches.
pub proof fn lemma_selection_holds_the_matches(
    entries: Seq<StashEntry>,
    pattern: Seq<u8>,
    found: Seq<StashEntry>,
    picks: Seq<int>,
)
    requires
        is_selection(entries, pattern, found, picks),
    ensures
        forall|k: int|
            0 <= k < found.len() ==> is_match(#[trigger] found[k], pattern) && entries.contains(
                found[k],
            ),
        forall|i: int|
            0 <= i < entries.len() && is_match(#[trigger] entries[i], pattern) ==> found.contains(
                entries[i],
            ),
{
    assert forall|k: int| 0 <= k < found.len() implies is_match(#[trigger] found[k], pattern)
        && entries.contains(found[k]) by {
        let i = picks[k];
        assert(picks.contains(i));
        assert(is_match(entries[i], pattern));
    }
    assert forall|i: int|
        0 <= i < entries.len() && is_match(#[trigger] entries[i], pattern) implies found.contains(
        entries[i],
    ) by {
        assert(picks.contains(i));
        let k = choose|k: int| 0 <= k < picks.len() && picks[k] == i;
        assert(found[k] == entries[i]);
    }
}

/// A selection takes each place at most once, so it is no longer than the
/// entries it was taken from.
pub proof fn lemma_selection_is_no_longer(
    entries: Seq<StashEntry>,
    pattern: Seq<u8>,
    found: Seq<StashEntry>,
    picks: Seq<int>,
)
    requires
        is_selection(entries, pattern, found, picks),
    ensures
        picks.no_duplicates(),
        found.len() <= entries.len(),
{
    assert forall|k: int, l: int| 0 <= k < picks.len() && 0 <= l < picks.len() && k != l implies picks[k]
        != picks[l] by {
        if k < l {
            assert(comes_before(entries, picks[k], picks[l]));
        } else {
            assert(comes_before(entries, picks[l], picks[k]));
        }
    }
    let places = vstd::set_lib::set_int_range(0, entries.len() as int);
    picks.unique_seq_to_set();
    vstd::set_lib::lemma_int_range(0, entries.len() as int);
    assert forall|i: int| picks.to_set().contains(i) implies places.contains(i) by {
        let k = choose|k: int| 0 <= k < picks.len() && picks[k] == i;
        assert(0 <= picks[k] < entries.len());
    }
    vstd::set_lib::lemma_len_subset(picks.to_set(), places);
}

/// Entries and pattern determine the selection: there is one only.
pub proof fn lemma_selection_is_unique(
    entries: Seq<StashEntry>,
    pattern: Seq<u8>,
    found: Seq<StashEntry>,
    picks: Seq<int>,
    other_found: Seq<StashEntry>,
    other_picks: Seq<int>,
)
    requires
        is_selection(entries, pattern, found, picks),
        is_selection(entries, pattern, other_found, other_picks),
    ensures
        picks == other_picks,
        found == other_found,
{
    lemma_selection_is_no_longer(entries, pattern, found, picks);
    lemma_selection_is_no_longer(entries, pattern, other_found, other_picks);
    lemma_picks_agree(entries, pattern, found, picks, other_found, other_picks, picks.len() as int);
    lemma_picks_agree(
        entries,
        pattern,
        other_found,
        other_picks,
        found,
        picks,
        other_picks.len() as int,
    );
    assert(picks =~= other_picks);
    assert forall|k: int| 0 <= k < found.len() implies found[k] == other_found[k] by {
        assert(found[k] == entries[picks[k]]);
        assert(other_found[k] == entries[other_picks[k]]);
    }
    assert(found =~= other_found);
}

/// Two selections from the same entries agree on their first `upto` picks,
/// and the second has that many.
proof fn lemma_picks_agree(
    entries: Seq<StashEntry>,
    pattern: Seq<u8>,
    found: Seq<StashEntry>,
    picks: Seq<int>,
    other_found: Seq<StashEntry>,
    other_picks: Seq<int>,
    upto: int,
)
    requires
        is_selection(entries, pattern, found, picks),
        is_selection(entries, pattern, other_found, other_picks),
        picks.no_duplicates(),
        other_picks.no_duplicates(),
        0 <= upto <= picks.len(),
    ensures
        upto <= other_picks.len(),
        forall|k: int| 0 <= k < upto ==> picks[k] == other_picks[k],
    decreases upto,
{
    if upto > 0 {
        lemma_picks_agree(entries, pattern, found, picks, other_found, other_picks, upto - 1);
        let k = upto - 1;
        let i = picks[k];
        assert(picks.contains(i));
        assert(is_match(entries[i], pattern));
        assert(other_picks.contains(i));
        let l = choose|l: int| 0 <= l < other_picks.len() && other_picks[l] == i;
        if l < k {
            assert(picks[l] == other_picks[l]);
        }
        if l > k {
            let j = other_picks[k];
            assert(comes_before(entries, j, i));
            assert(other_picks.contains(j));
            assert(is_match(entries[j], pattern));
            assert(picks.contains(j));
            let m = choose|m: int| 0 <= m < picks.len() && picks[m] == j;
            if m < k {
                assert(picks[m] == other_picks[m]);
            } else if m > k {
                assert(comes_before(entries, picks[k], picks[m]));
            }
        }
    }
}

/// What a report is: in the order of the numbers, strictly where no two
/// entries share one; no longer than the entries; made of entries that
/// match; and short of no entry that matches.
pub proof fn lemma_report(entries: Seq<StashEntry>, pattern: Seq<u8>, found: Seq<StashEntry>)
    requires
        is_report(entries, pattern, found),
    ensures
        ascending(found),
        distinct_numbers(entries) ==> strictly_ascending(found),
        found.len() <= entries.len(),
        forall|k: int|
            0 <= k < found.len() ==> is_match(#[trigger] found[k], pattern) && entries.contains(
                found[k],
            ),
        forall|i: int|
            0 <= i < entries.len() && is_match(#[trigger] entries[i], pattern) ==> found.contains(
                entries[i],
            ),
{
    let picks = choose|picks: Seq<int>| is_selection(entries, pattern, found, picks);
    lemma_selection_ascends(entries, pattern, found, picks);
    lemma_selection_holds_the_matches(entries, pattern, found, picks);
    lemma_selection_is_no_longer(entries, pattern, found, picks);
}

/// Entries and pattern determine the report: there is one only.
pub proof fn lemma_report_is_unique(
    entries: Seq<StashEntry>,
    pattern: Seq<u8>,
    found: Seq<StashEntry>,
    other: Seq<StashEntry>,
)
    requires
        is_report(entries, pattern, found),
        is_report(entries, pattern, other),
    ensures
        found == other,
{
    let picks = choose|picks: Seq<int>| is_selection(entries, pattern, found, picks);
    let other_picks = choose|picks: Seq<int>| is_selection(entries, pattern, other, picks);
    lemma_selection_is_unique(entries, pattern, found, picks, other, other_picks);
}

/// A selection stays one when an entry that does not match is added to the
/// entries it was taken from.
proof fn lemma_selection_skips(
    entries: Seq<StashEntry>,
    pattern: Seq<u8>,
    found: Seq<StashEntry>,
    picks: Seq<int>,
)
    requires
        entries.len() > 0,
        is_selection(entries.drop_last(), pattern, found, picks),
        !is_match(entries.last(), pattern),
    ensures
        is_selection(entries, pattern, found, picks),
{
    let before = entries.drop_last();
    assert forall|k: int| 0 <= k < picks.len() implies 0 <= #[trigger] picks[k] < entries.len()
        && found[k] == entries[picks[k]] by {
        assert(before[picks[k]] == entries[picks[k]]);
    }
    assert forall|k: int, l: int| 0 <= k < l < picks.len() implies comes_before(
        entries,
        #[trigger] picks[k],
        #[trigger] picks[l],
    ) by {
        assert(comes_before(before, picks[k], picks[l]));
    }
    assert forall|i: int| 0 <= i < entries.len() implies (is_match(#[trigger] entries[i], pattern)
        <==> picks.contains(i)) by {
        if i < before.len() {
            assert(before[i] == entries[i]);
        } else if picks.contains(i) {
            let k = choose|k: int| 0 <= k < picks.len() && picks[k] == i;
            assert(picks[k] < before.len());
        }
    }
}

/// A selection stays one when a matching entry is added to the entries and
/// takes its place in the selection: behind the members whose number is not
/// larger, before those whose number is.
proof fn lemma_selection_grows(
    entries: Seq<StashEntry>,
    pattern: Seq<u8>,
    found: Seq<StashEntry>,
    picks: Seq<int>,
    at: int,
)
    requires
        entries.len() > 0,
        is_selection(entries.drop_last(), pattern, found, picks),
        is_match(entries.last(), pattern),
        0 <= at <= found.len(),
        at > 0 ==> found[at - 1].number <= entries.last().number,
        forall|k: int| at <= k < found.len() ==> (#[trigger] found[k]).number > entries.last().number,
    ensures
        is_selection(
            entries,
            pattern,
            found.insert(at, entries.last()),
            picks.insert(at, entries.len() - 1),
        ),
{
    let before = entries.drop_last();
    let n = entries.len() - 1;
    let grown = found.insert(at, entries.last());
    let places = picks.insert(at, n);
    lemma_selection_ascends(before, pattern, found, picks);
    assert forall|k: int| 0 <= k < places.len() implies 0 <= #[trigger] places[k] < entries.len()
        && grown[k] == entries[places[k]] by {
        if k < at {
            assert(places[k] == picks[k]);
            assert(before[picks[k]] == entries[picks[k]]);
        } else if k > at {
            assert(places[k] == picks[k - 1]);
            assert(before[picks[k - 1]] == entries[picks[k - 1]]);
        }
    }
    assert forall|k: int, l: int| 0 <= k < l < places.len() implies comes_before(
        entries,
        #[trigger] places[k],
        #[trigger] places[l],
    ) by {
        let i = places[k];
        let j = places[l];
        if l < at {
            assert(comes_before(before, picks[k], picks[l]));
        } else if l == at {
            assert(i == picks[k]);
            assert(found[k] == before[i]);
            if k < at - 1 {
                assert(found[k].number <= found[at - 1].number);
            }
        } else if k < at {
            assert(comes_before(before, picks[k], picks[l - 1]));
        } else if k == at {
            assert(j == picks[l - 1]);
            assert(found[l - 1] == before[j]);
        } else {
            assert(comes_before(before, picks[k - 1], picks[l - 1]));
        }
    }
    assert forall|i: int| 0 <= i < entries.len() implies (is_match(#[trigger] entries[i], pattern)
        <==> places.contains(i)) by {
        if i < n {
            assert(before[i] == entries[i]);
            if picks.contains(i) {
                let k = choose|k: int| 0 <= k < picks.len() && picks[k] == i;
                if k < at {
                    assert(places[k] == i);
                } else {
                    assert(places[k + 1] == i);
                }
            }
            if places.contains(i) {
                let k = choose|k: int| 0 <= k < places.len() && places[k] == i;
                if k < at {
                    assert(picks[k] == i);
                } else {
                    assert(picks[k - 1] == i);
                }
            }
        } else {
            assert(places[at] == n);
        }
    }
}

/// The entries whose diff holds `pattern`, each once, in the order of their
/// numbers; entries with the same number keep the order they came in.
pub fn find_matches(entries: Vec<GitStash>, pattern: &str) -> (found: Vec<GitStash>)
    requires
        pattern@.len() > 0,
    ensures
        is_report(entries_of(entries@), pattern.spec_bytes(), entries_of(found@)),
        found@.len() <= entries@.len(),
        ascending(entries_of(found@)),
        distinct_numbers(entries_of(entries@)) ==> strictly_ascending(entries_of(found@)),
        forall|k: int|
            0 <= k < found@.len() ==> is_match(
                #[trigger] entries_of(found@)[k],
                pattern.spec_bytes(),
            ) && entries_of(entries@).contains(entries_of(found@)[k]),
        forall|i: int|
            0 <= i < entries@.len() && is_match(
                #[trigger] entries_of(entries@)[i],
                pattern.spec_bytes(),
            ) ==> entries_of(found@).contains(entries_of(entries@)[i]),
{
    let ghost source = entries@;
    let ghost all = entries_of(source);
    let ghost needle = pattern.spec_bytes();
    let ghost mut picks: Seq<int> = Seq::empty();
    let mut found: Vec<GitStash> = Vec::new();
    for entry in it: entries.into_iter()
        invariant
            it.seq() == source,
            all == entries_of(source),
            needle == pattern.spec_bytes(),
            pattern@.len() > 0,
            is_selection(all.take(it.index() as int), needle, entries_of(found@), picks),
    {
        let ghost n = it.index() as int;
        let ghost seen = all.take(n + 1);
        proof {
            assert(seen.drop_last() =~= all.take(n));
            assert(seen.last() == entry@);
        }
        if search(entry.patch_show_output.as_str(), pattern).is_some() {
            let mut at: usize = found.len();
            while at > 0 && found[at - 1].number > entry.number
                invariant
                    at <= found@.len(),
                    forall|k: int|
                        at <= k < found@.len() ==> (#[trigger] found@[k]).number > entry.number,
                decreases at,
            {
                at = at - 1;
            }
            proof {
                let members = entries_of(found@);
                assert forall|k: int| at <= k < members.len() implies (#[trigger] members[k]).number
                    > seen.last().number by {
                    assert(found@[k].number > entry.number);
                }
                lemma_selection_grows(seen, needle, members, picks, at as int);
                picks = picks.insert(at as int, n);
                assert(entries_of(found@.insert(at as int, entry)) =~= members.insert(
                    at as int,
                    entry@,
                ));
            }
            found.insert(at, entry);
        } else {
            proof {
                lemma_selection_skips(seen, needle, entries_of(found@), picks);
            }
        }
    }
    proof {
        assert(all.take(source.len() as int) =~= all);
        lemma_report(all, needle, entries_of(found@));
    }
    found
}

} // verus!
