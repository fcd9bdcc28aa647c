//! Exact search for one literal pattern in a byte buffer, by the Boyer–Moore
//! method with the bad-character rule alone.

use std::collections::HashMap;
use vstd::prelude::*;
use vstd::std_specs::hash::*;
use vstd::string::*;
use vstd::utf8::*;

verus! {

/// `pattern` lies in `subject` from offset `at` on.
pub open spec fn occurs_at(subject: Seq<u8>, pattern: Seq<u8>, at: int) -> bool {
    &&& 0 <= at
    &&& at + pattern.len() <= subject.len()
    &&& forall|j: int| 0 <= j < pattern.len() ==> subject[at + j] == #[trigger] pattern[j]
}

/// `pattern` is a contiguous part of `subject`.
pub open spec fn occurs(subject: Seq<u8>, pattern: Seq<u8>) -> bool {
    exists|at: int| occurs_at(subject, pattern, at)
}

/// `at` is the smallest offset at which `pattern` lies in `subject`.
pub open spec fn first_occurrence(subject: Seq<u8>, pattern: Seq<u8>, at: int) -> bool {
    &&& occurs_at(subject, pattern, at)
    &&& forall|k: int| 0 <= k < at ==> !occurs_at(subject, pattern, k)
}

/// Index of the last place where `byte` stands in `pattern`, or -1 where it
/// stands nowhere.
pub open spec fn last_index(pattern: Seq<u8>, byte: u8) -> int
    decreases pattern.len(),
{
    if pattern.len() == 0 {
        -1
    } else if pattern.last() == byte {
        pattern.len() - 1
    } else {
        last_index(pattern.drop_last(), byte)
    }
}

/// How far the pattern may move when `byte` caused a mismatch: the distance
/// from the byte's last place in the pattern to the pattern's end, and the
/// whole length for a byte that the pattern lacks.
pub open spec fn shift_for(pattern: Seq<u8>, byte: u8) -> int {
    pattern.len() - 1 - last_index(pattern, byte)
}

/// The shift table of `pattern`: one entry for each byte that stands in it.
pub open spec fn shift_table(pattern: Seq<u8>) -> Map<u8, usize> {
    Map::new(|byte: u8| pattern.contains(byte), |byte: u8| shift_for(pattern, byte) as usize)
}

/// What `last_index` names: the place holds the byte, no later place does,
/// and it is -1 exactly for a byte that the pattern lacks.
pub proof fn lemma_last_index(pattern: Seq<u8>, byte: u8)
    ensures
        -1 <= last_index(pattern, byte) < pattern.len(),
        last_index(pattern, byte) >= 0 <==> pattern.contains(byte),
        last_index(pattern, byte) >= 0 ==> pattern[last_index(pattern, byte)] == byte,
        forall|k: int| last_index(pattern, byte) < k < pattern.len() ==> pattern[k] != byte,
    decreases pattern.len(),
{
    if pattern.len() > 0 {
        let front = pattern.drop_last();
        lemma_last_index(front, byte);
        if pattern.last() == byte {
            assert(pattern[pattern.len() - 1] == byte);
        } else {
            if front.contains(byte) {
                assert(pattern[last_index(front, byte)] == byte);
            }
            if pattern.contains(byte) {
                let k = choose|k: int| 0 <= k < pattern.len() && pattern[k] == byte;
                assert(front[k] == byte);
            }
            assert forall|k: int| last_index(pattern, byte) < k < pattern.len() implies pattern[k]
                != byte by {
                if k < front.len() {
                    assert(front[k] != byte);
                }
            }
        }
    }
}

/// Builds the shift table of `pattern`.
pub fn create_shift_table(pattern: &str) -> (table: HashMap<u8, usize>)
    ensures
        table@ == shift_table(pattern.spec_bytes()),
{
    broadcast use group_hash_axioms;

    let bytes = pattern.as_bytes();
    let length = bytes.len();
    let mut table: HashMap<u8, usize> = HashMap::new();
    for i in 0..length
        invariant
            length == bytes@.len(),
            forall|byte: u8| #[trigger]
                table@.contains_key(byte) <==> bytes@.take(i as int).contains(byte),
            forall|byte: u8| #[trigger]
                table@.contains_key(byte) ==> table@[byte] == length - 1 - last_index(
                    bytes@.take(i as int),
                    byte,
                ),
    {
        let ghost before = bytes@.take(i as int);
        let ghost after = bytes@.take(i + 1);
        proof {
            assert(after.drop_last() == before);
            assert forall|byte: u8| after.contains(byte) <==> (before.contains(byte) || byte
                == bytes@[i as int]) by {
                if after.contains(byte) {
                    let k = choose|k: int| 0 <= k < after.len() && after[k] == byte;
                    if k < i {
                        assert(before[k] == byte);
                    }
                }
                if before.contains(byte) {
                    let k = choose|k: int| 0 <= k < before.len() && before[k] == byte;
                    assert(after[k] == byte);
                }
                assert(after[i as int] == bytes@[i as int]);
            }
            assert forall|byte: u8| before.contains(byte) implies 0 <= last_index(before, byte)
                < i by {
                lemma_last_index(before, byte);
            }
        }
        table.insert(bytes[i], length - i - 1);
    }
    proof {
        assert(bytes@.take(length as int) == bytes@);
    }
    table
}

/// The bad-character rule skips no occurrence. The window starts at `start`,
/// the bytes differ at place `p` of the pattern, and no occurrence starts
/// before the window: then none starts before the window's next place either.
pub proof fn lemma_shift_skips_no_occurrence(
    subject: Seq<u8>,
    pattern: Seq<u8>,
    start: int,
    p: int,
    step: int,
)
    requires
        0 <= start,
        0 <= p < pattern.len(),
        start + p < subject.len(),
        subject[start + p] != pattern[p],
        forall|k: int| 0 <= k < start ==> !occurs_at(subject, pattern, k),
        step == shift_for(pattern, subject[start + p]) || step == pattern.len() - p,
        step >= shift_for(pattern, subject[start + p]),
        step >= pattern.len() - p,
    ensures
        forall|k: int|
            0 <= k < start + p + step - (pattern.len() - 1) ==> !occurs_at(subject, pattern, k),
{
    let byte = subject[start + p];
    lemma_last_index(pattern, byte);
    assert forall|k: int| 0 <= k < start + p + step - (pattern.len() - 1) implies !occurs_at(
        subject,
        pattern,
        k,
    ) by {
        if k >= start && occurs_at(subject, pattern, k) {
            let j = start + p - k;
            assert(subject[k + j] == pattern[j]);
        }
    }
}

/// What `search` answers for `pattern` in `subject`: the smallest offset of an
/// occurrence, or nothing where there is no occurrence.
pub open spec fn is_search_result(
    subject: Seq<u8>,
    pattern: Seq<u8>,
    result: Option<usize>,
) -> bool {
    match result {
        Some(at) => first_occurrence(subject, pattern, at as int),
        None => !occurs(subject, pattern),
    }
}

/// The search is a function of its two inputs: any two answers for the same
/// subject and pattern are the same answer.
pub proof fn lemma_search_result_is_unique(
    subject: Seq<u8>,
    pattern: Seq<u8>,
    first: Option<usize>,
    second: Option<usize>,
)
    requires
        is_search_result(subject, pattern, first),
        is_search_result(subject, pattern, second),
    ensures
        first == second,
{
}

/// Where the pattern occurs at all, the search finds it, and no occurrence
/// starts before the offset it answers with.
pub proof fn lemma_search_finds_the_first(
    subject: Seq<u8>,
    pattern: Seq<u8>,
    result: Option<usize>,
    at: int,
)
    requires
        is_search_result(subject, pattern, result),
        occurs_at(subject, pattern, at),
    ensures
        result is Some,
        occurs_at(subject, pattern, result->Some_0 as int),
        result->Some_0 <= at,
{
}

/// A pattern longer than the subject occurs nowhere in it.
pub proof fn lemma_longer_pattern_occurs_nowhere(subject: Seq<u8>, pattern: Seq<u8>)
    requires
        pattern.len() > subject.len(),
    ensures
        !occurs(subject, pattern),
{
}

/// Text has bytes exactly where it has characters.
pub proof fn lemma_text_has_bytes(text: Seq<char>)
    ensures
        text.len() > 0 <==> encode_utf8(text).len() > 0,
{
    reveal_with_fuel(encode_utf8, 2);
}

/// Where `pattern` first lies in `subject`, as a byte offset, by Boyer–Moore
/// search with the bad-character rule: the pattern is compared from its right
/// end, and after a mismatch the window moves by the larger of the table's
/// shift for the offending byte and the shift that puts it one place further.
/// The pattern must not be empty.
pub fn search(subject: &str, pattern: &str) -> (result: Option<usize>)
    requires
        pattern@.len() > 0,
    ensures
        is_search_result(subject.spec_bytes(), pattern.spec_bytes(), result),
        result is Some <==> occurs(subject.spec_bytes(), pattern.spec_bytes()),
        pattern.spec_bytes().len() > subject.spec_bytes().len() ==> result is None,
{
    broadcast use group_hash_axioms;

    proof {
        lemma_text_has_bytes(pattern@);
    }
    let text = subject.as_bytes();
    let pat = pattern.as_bytes();
    let n = text.len();
    let m = pat.len();
    let shift_table = create_shift_table(pattern);

    let mut i: usize = m - 1;
    while i < n
        invariant
            text@ == subject.spec_bytes(),
            pat@ == pattern.spec_bytes(),
            n == text@.len(),
            m == pat@.len(),
            m >= 1,
            i >= m - 1,
            shift_table@ == self::shift_table(pat@),
            forall|k: int| 0 <= k < i - (m - 1) ==> !occurs_at(text@, pat@, k),
        decreases n - i,
    {
        let ghost start: int = i - (m - 1);
        let mut p: usize = m - 1;
        loop
            invariant
                text@ == subject.spec_bytes(),
                pat@ == pattern.spec_bytes(),
                n == text@.len(),
                m == pat@.len(),
                p < m,
                i == start + p,
                0 <= start,
                start + m <= n,
                forall|k: int| 0 <= k < start ==> !occurs_at(text@, pat@, k),
                forall|j: int| p < j < m ==> text@[start + j] == #[trigger] pat@[j],
            ensures
                text@[i as int] != pat@[p as int],
            decreases p,
        {
            if text[i] == pat[p] {
                if p == 0 {
                    proof {
                        assert(occurs_at(text@, pat@, start));
                    }
                    return Some(i);
                }
                i = i - 1;
                p = p - 1;
            } else {
                break ;
            }
        }

        proof {
            lemma_last_index(pat@, text@[i as int]);
        }
        let shift: usize = match shift_table.get(&text[i]) {
            Some(skip) => *skip,
            None => m,
        };
        let guard_shift: usize = m - p;
        let step: usize = if shift > guard_shift {
            shift
        } else {
            guard_shift
        };
        proof {
            lemma_shift_skips_no_occurrence(text@, pat@, start, p as int, step as int);
        }
        // The window would end behind the subject. Tested before the step is
        // added, so that the sum stays within `usize`.
        if step >= n - i {
            proof {
                assert forall|k: int| !occurs_at(text@, pat@, k) by {}
            }
            return None;
        }
        i += step;
    }
    proof {
        assert forall|k: int| !occurs_at(text@, pat@, k) by {}
    }
    None
}

} // verus!
