//! What a new number does to a tag: the tag keeps its stem and its ending,
//! and its identity is the old one with another number.

use crate::tag::{
    digit_run_end, digit_run_start, item_identity, lemma_digit_run, lemma_digit_run_is,
    lemma_digit_run_starts, lemma_identity_shape, lemma_spraycan, spraycan, stem, with_number,
};
use crate::text::{
    decimal, digit_free, is_digit, lemma_decimal_digits, lemma_ending_after_digit,
    lemma_replaced_ending, lemma_replaced_first, replaced,
};
use vstd::prelude::*;

verus! {

/// `newid` is `oldid` with another number: it has the stem of `oldid` and
/// then digits to its end. An `oldid` without a digit has no number to
/// change.
pub open spec fn renumbers(oldid: Seq<u8>, newid: Seq<u8>) -> bool {
    if digit_run_start(oldid) >= oldid.len() {
        newid == oldid
    } else {
        &&& stem(newid) == stem(oldid)
        &&& digit_run_start(newid) < newid.len()
        &&& digit_run_end(newid) == newid.len()
    }
}

/// Two tags have the same stem and end alike: with `ending` both, or
/// neither.
pub open spec fn alike(a: Seq<u8>, b: Seq<u8>, ending: Seq<u8>) -> bool {
    stem(a) == stem(b) && ending.is_suffix_of(a) == ending.is_suffix_of(b)
}

/// A tag with another number keeps its stem and what follows its digits,
/// and its identity is the old one with another number.
pub proof fn lemma_with_number(tag: Seq<u8>, n: nat)
    ensures
        digit_run_start(tag) >= tag.len() ==> with_number(tag, n) == tag,
        digit_run_start(tag) < tag.len() ==> digit_run_start(with_number(tag, n))
            == digit_run_start(tag) && digit_run_start(tag) < with_number(tag, n).len(),
        stem(with_number(tag, n)) == stem(tag),
        renumbers(item_identity(tag), item_identity(with_number(tag, n))),
{
    lemma_digit_run(tag);
    lemma_identity_shape(tag);
    let start = digit_run_start(tag);
    let end = digit_run_end(tag);
    let renamed = with_number(tag, n);
    if start < tag.len() {
        lemma_decimal_digits(n);
        let digits = decimal(n);
        assert forall|k: int| 0 <= k < start implies !is_digit(#[trigger] renamed[k]) by {
            assert(renamed[k] == tag[k]);
        }
        assert forall|k: int| start <= k < start + digits.len() implies is_digit(
            #[trigger] renamed[k],
        ) by {
            assert(renamed[k] == digits[k - start]);
        }
        if start + digits.len() < renamed.len() {
            assert(renamed[start + digits.len()] == tag[end]);
        }
        lemma_digit_run_is(renamed, start, start + digits.len());
        assert(stem(renamed) =~= stem(tag));
        lemma_identity_shape(renamed);
    }
}

/// A tag with another number has the stem and the ending that it had.
pub proof fn lemma_with_number_alike(tag: Seq<u8>, n: nat, ending: Seq<u8>)
    requires
        digit_free(ending),
    ensures
        alike(tag, with_number(tag, n), ending),
{
    lemma_digit_run(tag);
    lemma_with_number(tag, n);
    let start = digit_run_start(tag);
    let end = digit_run_end(tag);
    let renamed = with_number(tag, n);
    if start < tag.len() {
        lemma_decimal_digits(n);
        let cut = start + decimal(n).len();
        assert(is_digit(tag[end - 1]));
        lemma_ending_after_digit(tag, end, ending);
        assert(renamed[cut - 1] == decimal(n)[decimal(n).len() - 1]);
        lemma_ending_after_digit(renamed, cut, ending);
        assert(renamed.subrange(cut, renamed.len() as int) =~= tag.subrange(
            end,
            tag.len() as int,
        ));
    }
}

/// The record of an item that has been renumbered takes the item's new
/// identity: where the identity of a tag is replaced by the same identity
/// with another number, that is the identity of the new tag, and the new tag
/// has the stem of the old one.
pub proof fn lemma_replaced_identity(tag: Seq<u8>, newid: Seq<u8>)
    requires
        renumbers(item_identity(tag), newid),
        !spraycan().is_prefix_of(tag),
    ensures
        item_identity(replaced(tag, item_identity(tag), newid)) == newid,
        stem(replaced(tag, item_identity(tag), newid)) == stem(tag),
        digit_run_start(tag) < tag.len() ==> digit_run_start(
            replaced(tag, item_identity(tag), newid),
        ) < replaced(tag, item_identity(tag), newid).len(),
{
    lemma_digit_run(tag);
    lemma_identity_shape(tag);
    let id = item_identity(tag);
    let start = digit_run_start(tag);
    let renamed = replaced(tag, id, newid);
    if start >= tag.len() {
        assert(id == tag);
        assert(newid == tag);
        if tag.len() > 0 {
            assert(tag.is_prefix_of(tag)) by {
                assert(tag =~= tag.subrange(0, tag.len() as int));
            }
            assert(tag.skip(tag.len() as int) =~= Seq::<u8>::empty());
            assert(replaced(tag.skip(tag.len() as int), id, newid) =~= Seq::<u8>::empty());
            assert(renamed =~= tag);
        }
    } else {
        let rest = tag.skip(id.len() as int);
        let tail = replaced(rest, id, newid);
        assert(renamed == newid + tail);
        lemma_digit_run(newid);
        lemma_digit_run(id);
        assert(digit_run_start(newid) == start) by {
            assert(stem(newid).len() == stem(id).len());
        }
        assert forall|k: int| 0 <= k < start implies !is_digit(#[trigger] renamed[k]) by {
            assert(renamed[k] == newid[k]);
        }
        assert forall|k: int| start <= k < newid.len() implies is_digit(#[trigger] renamed[k]) by {
            assert(renamed[k] == newid[k]);
        }
        if rest.len() > 0 {
            assert(rest[0] == tag[id.len() as int]);
            assert(!is_digit(rest[0]));
            assert(id[0] == tag[0]);
            assert(is_digit(id[0]) || newid[0] == id[0]) by {
                if start > 0 {
                    assert(stem(newid)[0] == stem(id)[0]);
                }
            }
            lemma_replaced_first(rest, id, newid);
            assert(renamed[newid.len() as int] == tail[0]);
        } else {
            assert(tail =~= Seq::<u8>::empty());
        }
        lemma_digit_run_is(renamed, start, newid.len() as int);
        assert(stem(renamed) =~= stem(tag)) by {
            assert(stem(newid) == stem(id));
            assert(stem(renamed) =~= stem(newid));
        }
        assert(!spraycan().is_prefix_of(renamed)) by {
            lemma_spraycan();
            if spraycan().is_prefix_of(renamed) {
                if start < 8 {
                    assert(spraycan()[start] == renamed.subrange(0, 8)[start]);
                } else {
                    assert forall|k: int| 0 <= k < 8 implies spraycan()[k] == tag[k] by {
                        assert(spraycan()[k] == renamed.subrange(0, 8)[k]);
                        assert(renamed[k] == stem(renamed)[k]);
                        assert(tag[k] == stem(tag)[k]);
                    }
                    assert(spraycan() =~= tag.subrange(0, 8));
                }
            }
        }
        assert(item_identity(renamed) =~= newid);
    }
}

/// A tag whose identity is replaced by the same identity with another
/// number has the stem and the ending that it had.
pub proof fn lemma_replaced_alike(tag: Seq<u8>, newid: Seq<u8>, ending: Seq<u8>)
    requires
        renumbers(item_identity(tag), newid),
        digit_free(ending),
    ensures
        alike(tag, replaced(tag, item_identity(tag), newid), ending),
{
    lemma_digit_run(tag);
    lemma_identity_shape(tag);
    let id = item_identity(tag);
    let start = digit_run_start(tag);
    let renamed = replaced(tag, id, newid);
    if start >= tag.len() {
        if tag.len() > 0 {
            assert(tag.is_prefix_of(tag)) by {
                assert(tag =~= tag.subrange(0, tag.len() as int));
            }
            assert(tag.skip(tag.len() as int) =~= Seq::<u8>::empty());
            assert(replaced(tag.skip(tag.len() as int), id, newid) =~= Seq::<u8>::empty());
            assert(renamed =~= tag);
        }
    } else {
        lemma_digit_run(newid);
        lemma_digit_run(id);
        assert(digit_run_start(newid) == start) by {
            assert(stem(newid).len() == stem(id).len());
        }
        assert(is_digit(id.last())) by {
            assert(id.last() == tag[id.len() - 1]);
        }
        assert(is_digit(newid.last()));
        lemma_replaced_ending(tag, id, newid, ending);
        let tail = replaced(tag.skip(id.len() as int), id, newid);
        assert(renamed == newid + tail);
        assert forall|k: int| 0 <= k < start implies !is_digit(#[trigger] renamed[k]) by {
            assert(renamed[k] == newid[k]);
        }
        assert(renamed[start] == newid[start]);
        lemma_digit_run_starts(renamed, start);
        assert(stem(renamed) =~= stem(tag)) by {
            assert(stem(newid) == stem(id));
            assert(stem(renamed) =~= stem(newid));
        }
    }
}

} // verus!
