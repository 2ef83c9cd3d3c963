//! The children of the tracker: which are listed, and which are still alive.
use crate::outside::echild;

use crate::text::{parse_i32, signed_value, utf8_text};
use vstd::prelude::*;
use vstd::utf8::{decode_utf8, valid_utf8};

verus! {

/// The byte separates words in ASCII text.
pub open spec fn is_word_gap(byte: u8) -> bool {
    byte == 32 || byte == 9 || byte == 10 || byte == 12 || byte == 13
}

/// The words of a text behind a word that has begun, which may be empty.
pub open spec fn words_behind(begun: Seq<u8>, text: Seq<u8>) -> Seq<Seq<u8>>
    decreases text.len(),
{
    let first = if begun.len() == 0 {
        Seq::empty()
    } else {
        seq![begun]
    };
    if text.len() == 0 {
        first
    } else if is_word_gap(text[0]) {
        first + words_behind(Seq::empty(), text.skip(1))
    } else {
        words_behind(begun.push(text[0]), text.skip(1))
    }
}

/// The words of a text.
pub open spec fn words_of(text: Seq<u8>) -> Seq<Seq<u8>> {
    words_behind(Seq::empty(), text)
}

/// The process that a word names, if it names one.
pub open spec fn process_of(word: Seq<u8>) -> Option<int> {
    if !valid_utf8(word) {
        None
    } else {
        match signed_value(decode_utf8(word)) {
            Some(number) if i32::MIN <= number <= i32::MAX => Some(number),
            _ => None,
        }
    }
}

/// The text lists the process.
pub open spec fn lists_process(text: Seq<u8>, process: i32) -> bool {
    exists|i: int|
        0 <= i < words_of(text).len() && process_of(#[trigger] words_of(text)[i]) == Some(
            process as int,
        )
}

fn read_process(word: &Vec<u8>) -> (process: Option<i32>)
    ensures
        match process {
            Some(found) => process_of(word@) == Some(found as int),
            None => process_of(word@) is None,
        },
{
    match utf8_text(word) {
        None => None,
        Some(text) => match parse_i32(text) {
            Ok(found) => Some(found),
            Err(_) => None,
        },
    }
}

fn words(text: &[u8]) -> (list: Vec<Vec<u8>>)
    ensures
        crate::order::deep(list@) == words_of(text@),
{
    let mut list: Vec<Vec<u8>> = Vec::new();
    let mut begun: Vec<u8> = Vec::new();
    let mut i: usize = 0;
    assert(begun@ =~= Seq::<u8>::empty());
    assert(text@.skip(0) =~= text@);
    assert(crate::order::deep(list@) + words_behind(begun@, text@.skip(0)) =~= words_of(text@));
    while i < text.len()
        invariant
            i <= text@.len(),
            crate::order::deep(list@) + words_behind(begun@, text@.skip(i as int)) == words_of(
                text@,
            ),
        decreases text@.len() - i,
    {
        let byte: u8 = text[i];
        let ghost held = crate::order::deep(list@);
        let ghost piece = begun@;
        let ghost rest = text@.skip(i as int);
        proof {
            assert(rest[0] == byte);
            assert(rest.skip(1) =~= text@.skip(i + 1));
        }
        if byte == 32 || byte == 9 || byte == 10 || byte == 12 || byte == 13 {
            if begun.len() > 0 {
                let ghost before = list@;
                list.push(begun);
                assert(crate::order::deep(list@) =~= held.push(piece));
                assert(held + (seq![piece] + words_behind(Seq::empty(), rest.skip(1))) =~= held.push(
                    piece,
                ) + words_behind(Seq::empty(), rest.skip(1)));
            } else {
                assert(held + (Seq::empty() + words_behind(Seq::empty(), rest.skip(1))) =~= held
                    + words_behind(Seq::empty(), rest.skip(1)));
            }
            begun = Vec::new();
            assert(begun@ =~= Seq::<u8>::empty());
        } else {
            begun.push(byte);
        }
        i += 1;
    }
    let ghost held = crate::order::deep(list@);
    let ghost piece = begun@;
    assert(text@.skip(text@.len() as int) =~= Seq::<u8>::empty());
    if begun.len() > 0 {
        list.push(begun);
        assert(crate::order::deep(list@) =~= held.push(piece));
        assert(held + seq![piece] =~= held.push(piece));
    } else {
        assert(held + Seq::<Seq<u8>>::empty() =~= held);
    }
    list
}

fn knows(children: &Vec<i32>, process: i32) -> (result: bool)
    ensures
        result == children@.contains(process),
{
    let mut i: usize = 0;
    while i < children.len()
        invariant
            i <= children@.len(),
            forall|j: int| 0 <= j < i ==> children@[j] != process,
        decreases children@.len() - i,
    {
        if children[i] == process {
            assert(children@[i as int] == process);
            return true;
        }
        i += 1;
    }
    false
}

/// Adds the processes that a list of children names to those that are known, each once.
pub fn add_children(children: &mut Vec<i32>, text: &[u8])
    requires
        old(children)@.no_duplicates(),
    ensures
        final(children)@.no_duplicates(),
        forall|process: i32| #[trigger]
            final(children)@.contains(process) <==> old(children)@.contains(process)
                || lists_process(text@, process),
{
    let list = words(text);
    let ghost all = words_of(text@);
    let ghost start = children@;
    let mut i: usize = 0;
    while i < list.len()
        invariant
            i <= list@.len(),
            all == crate::order::deep(list@),
            children@.no_duplicates(),
            forall|process: i32| #[trigger]
                children@.contains(process) <==> start.contains(process) || exists|k: int|
                    0 <= k < i && process_of(#[trigger] all[k]) == Some(process as int),
        decreases list@.len() - i,
    {
        assert(all[i as int] == list@[i as int]@);
        let ghost before = children@;
        match read_process(&list[i]) {
            Some(process) => {
                if !knows(children, process) {
                    children.push(process);
                    proof {
                        let after = children@;
                        assert(after =~= before.push(process));
                        assert forall|other: i32| #[trigger] after.contains(other) <==> (
                        before.contains(other) || other == process) by {
                            if before.contains(other) {
                                let k = choose|k: int| 0 <= k < before.len() && before[k] == other;
                                assert(after[k] == other);
                            }
                            if other == process {
                                assert(after[before.len() as int] == other);
                            }
                        }
                    }
                }
                proof {
                    assert forall|other: i32| #[trigger]
                        children@.contains(other) <==> start.contains(other) || exists|k: int|
                            0 <= k < i + 1 && process_of(#[trigger] all[k]) == Some(
                                other as int,
                            ) by {
                        if exists|k: int|
                            0 <= k < i + 1 && process_of(#[trigger] all[k]) == Some(other as int) {
                            let k = choose|k: int|
                                0 <= k < i + 1 && process_of(#[trigger] all[k]) == Some(
                                    other as int,
                                );
                            if k < i {
                                assert(before.contains(other));
                            }
                        }
                        assert(process_of(all[i as int]) == Some(process as int));
                    }
                }
            },
            None => {
                proof {
                    assert forall|other: i32| #[trigger]
                        children@.contains(other) <==> start.contains(other) || exists|k: int|
                            0 <= k < i + 1 && process_of(#[trigger] all[k]) == Some(
                                other as int,
                            ) by {
                        assert(process_of(all[i as int]) is None);
                    }
                }
            },
        }
        i += 1;
    }
}

/// What waiting for one child came to.
#[derive(Debug, Clone, Copy, PartialEq, Eq, Structural)]
pub enum ChildState {
    /// It is still alive.
    Alive,
    /// It has ended, or it is no child any more.
    Gone,
    /// Waiting failed.
    Failed,
}

/// What waiting for one child came to, by what the call returned and its error code.
pub fn child_state(result: i32, code: Option<i32>) -> (state: ChildState)
    ensures
        state == (if result == 0 {
            ChildState::Alive
        } else if result > 0 || code == Some(10i32) {
            ChildState::Gone
        } else {
            ChildState::Failed
        }),
{
    if result == 0 {
        return ChildState::Alive;
    }
    if result > 0 {
        return ChildState::Gone;
    }
    match code {
        Some(number) => {
            if number == echild() {
                ChildState::Gone
            } else {
                ChildState::Failed
            }
        },
        None => ChildState::Failed,
    }
}

/// The children that are to be waited for: all but the capture helper.
pub fn children_to_check(children: &Vec<i32>, helper: Option<i32>) -> (list: Vec<i32>)
    ensures
        list@ == children@.filter(|process: i32| Some(process) != helper),
{
    let mut list: Vec<i32> = Vec::new();
    let ghost wanted = |process: i32| Some(process) != helper;
    let mut i: usize = 0;
    assert(children@.take(0) =~= Seq::<i32>::empty());
    proof {
        reveal(Seq::filter);
        assert(children@.take(0).filter(wanted) =~= Seq::<i32>::empty());
    }
    while i < children.len()
        invariant
            i <= children@.len(),
            wanted == (|process: i32| Some(process) != helper),
            list@ == children@.take(i as int).filter(wanted),
        decreases children@.len() - i,
    {
        proof {
            reveal(Seq::filter);
            assert(children@.take(i + 1).drop_last() =~= children@.take(i as int));
            assert(children@.take(i + 1).last() == children@[i as int]);
        }
        let left_out = match helper {
            Some(process) => process == children[i],
            None => false,
        };
        if !left_out {
            list.push(children[i]);
        }
        i += 1;
    }
    assert(children@.take(children@.len() as int) =~= children@);
    list
}

/// The byte is ASCII white space.
pub open spec fn parts_words(byte: u8) -> bool {
    byte == 9 || byte == 10 || byte == 12 || byte == 13 || byte == 32
}

/// The words of a text are what white space parts: a word alone is itself, and the words of two
/// texts with white space between them are those of the first and then those of the second.
pub proof fn white_space_parts_words(first: Seq<u8>, gap: u8, second: Seq<u8>, word: Seq<u8>)
    requires
        parts_words(gap),
        word.len() > 0,
        forall|i: int| 0 <= i < word.len() ==> !parts_words(#[trigger] word[i]),
    ensures
        words_of(Seq::empty()) == Seq::<Seq<u8>>::empty(),
        words_of(word) == seq![word],
        words_of(first.push(gap) + second) == words_of(first) + words_of(second),
{
    lemma_unparted(Seq::empty(), word);
    assert(Seq::<u8>::empty() + word =~= word);
    lemma_parted(Seq::empty(), first, gap, second);
}

proof fn lemma_unparted(begun: Seq<u8>, word: Seq<u8>)
    requires
        forall|i: int| 0 <= i < word.len() ==> !parts_words(#[trigger] word[i]),
    ensures
        words_behind(begun, word) == if (begun + word).len() == 0 {
            Seq::empty()
        } else {
            seq![begun + word]
        },
    decreases word.len(),
{
    if word.len() == 0 {
        assert(begun + word =~= begun);
    } else {
        let rest = word.skip(1);
        assert forall|i: int| 0 <= i < rest.len() implies !parts_words(#[trigger] rest[i]) by {
            assert(rest[i] == word[i + 1]);
        }
        assert(!parts_words(word[0]));
        lemma_unparted(begun.push(word[0]), rest);
        assert(begun.push(word[0]) + rest =~= begun + word);
    }
}

proof fn lemma_parted(begun: Seq<u8>, first: Seq<u8>, gap: u8, second: Seq<u8>)
    requires
        parts_words(gap),
    ensures
        words_behind(begun, first.push(gap) + second) == words_behind(begun, first)
            + words_of(second),
    decreases first.len(),
{
    let whole = first.push(gap) + second;
    if first.len() == 0 {
        assert(whole[0] == gap);
        assert(whole.skip(1) =~= second);
        assert(words_behind(begun, first) + words_of(second) =~= words_behind(begun, whole));
    } else {
        let rest = first.skip(1);
        assert(whole[0] == first[0]);
        assert(whole.skip(1) =~= rest.push(gap) + second);
        if is_word_gap(first[0]) {
            lemma_parted(Seq::empty(), rest, gap, second);
            assert(words_behind(begun, whole) =~= words_behind(begun, first) + words_of(second));
        } else {
            lemma_parted(begun.push(first[0]), rest, gap, second);
        }
    }
}

/// A word names a process exactly where it is the text of a number that a process can have.
pub proof fn a_word_names_a_process_by_its_number(word: Seq<u8>, process: i32)
    ensures
        process_of(word) == Some(process as int) <==> valid_utf8(word) && signed_value(
            decode_utf8(word),
        ) == Some(process as int),
{
}

/// A child is alive exactly where waiting for it gives nothing yet, and gone where it has ended
/// or is no child; any other error is a failure.
pub proof fn waiting_tells_a_childs_state(result: i32, code: Option<i32>, state: ChildState)
    requires
        call_ensures(child_state, (result, code), state),
    ensures
        state == ChildState::Alive <==> result == 0,
        state == ChildState::Gone <==> result > 0 || (result < 0 && code == Some(10i32)),
        state == ChildState::Failed <==> result < 0 && code != Some(10i32),
{
}

/// Every child but the capture helper is waited for.
pub proof fn all_but_the_helper_are_checked(
    children: Vec<i32>,
    helper: Option<i32>,
    list: Vec<i32>,
    process: i32,
)
    requires
        call_ensures(children_to_check, (&children, helper), list),
    ensures
        list@.contains(process) <==> children@.contains(process) && helper != Some(process),
{
    let wanted = |one: i32| Some(one) != helper;
    lemma_filter(children@, wanted, process);
}

proof fn lemma_filter(all: Seq<i32>, wanted: spec_fn(i32) -> bool, process: i32)
    ensures
        all.filter(wanted).contains(process) <==> all.contains(process) && wanted(process),
    decreases all.len(),
{
    reveal(Seq::filter);
    if all.len() > 0 {
        let head = all.drop_last();
        lemma_filter(head, wanted, process);
        let some = head.filter(wanted);
        let kept = all.filter(wanted);
        if head.contains(process) {
            let k = choose|k: int| 0 <= k < head.len() && head[k] == process;
            assert(all[k] == process);
        }
        if all.contains(process) {
            let k = choose|k: int| 0 <= k < all.len() && all[k] == process;
            if k < head.len() {
                assert(head[k] == process);
            }
        }
        if process == all.last() {
            assert(all[all.len() - 1] == process);
        }
        if wanted(all.last()) {
            assert(kept == some.push(all.last()));
            if some.contains(process) {
                let k = choose|k: int| 0 <= k < some.len() && some[k] == process;
                assert(kept[k] == process);
            }
            if kept.contains(process) {
                let k = choose|k: int| 0 <= k < kept.len() && kept[k] == process;
                if k < some.len() {
                    assert(some[k] == process);
                }
            }
            assert(kept[some.len() as int] == all.last());
        }
    }
}

/// The children that are known are those that were known and those that a list names, each once.
pub proof fn listed_children_become_known(children: &mut Vec<i32>, text: &[u8], process: i32)
    requires
        old(children)@.no_duplicates(),
        call_ensures(add_children, (children, text), ()),
    ensures
        final(children)@.no_duplicates(),
        final(children)@.contains(process) <==> old(children)@.contains(process) || exists|i: int|
            0 <= i < words_of(text@).len() && process_of(#[trigger] words_of(text@)[i]) == Some(
                process as int,
            ),
{
}

} // verus!
