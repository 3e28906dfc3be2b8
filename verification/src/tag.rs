//! The grammar of tags: a tag names an item by the text up to the end of its
//! first run of digits, and that run numbers the item within its group.

use crate::entry::Entry;
use crate::text::{
    append_bytes, copy_range, decimal, decimal_text, digit_free, is_ascii_digit, is_digit,
    starts_with,
};
use vstd::prelude::*;
use vstd::string::{is_ascii_spec_bytes, StringSliceAdditionalSpecFns};

verus! {

/// The prefix of the tags whose digits begin with a group index of two
/// digits, followed by the number of the item.
pub open spec fn spraycan() -> Seq<u8> {
    "spraycan".spec_bytes()
}

/// The least index from `i` on at which `tag` holds a digit, or the length of
/// `tag` if there is none.
pub open spec fn next_digit(tag: Seq<u8>, i: int) -> int
    decreases tag.len() - i,
{
    if i >= tag.len() {
        tag.len() as int
    } else if is_digit(tag[i]) {
        i
    } else {
        next_digit(tag, i + 1)
    }
}

/// The least index from `i` on at which `tag` holds no digit, or the length
/// of `tag` if there is none.
pub open spec fn next_non_digit(tag: Seq<u8>, i: int) -> int
    decreases tag.len() - i,
{
    if i >= tag.len() {
        tag.len() as int
    } else if !is_digit(tag[i]) {
        i
    } else {
        next_non_digit(tag, i + 1)
    }
}

/// Where the first run of digits of `tag` begins: the length of `tag` if it
/// holds no digit.
pub open spec fn digit_run_start(tag: Seq<u8>) -> int {
    next_digit(tag, 0)
}

/// Where the first run of digits of `tag` ends.
pub open spec fn digit_run_end(tag: Seq<u8>) -> int {
    next_non_digit(tag, digit_run_start(tag))
}

/// Where the identity of `tag` ends: at the end of the first run of digits,
/// but after its second digit where the tag begins with `spraycan`.
pub open spec fn identity_end(tag: Seq<u8>) -> int {
    let start = digit_run_start(tag);
    let end = digit_run_end(tag);
    if spraycan().is_prefix_of(tag) && end - start > 2 {
        start + 2
    } else {
        end
    }
}

/// The identity of the item that `tag` belongs to: the tag up to the end of
/// its first run of digits, or all of it where it holds no digit.
pub open spec fn item_identity(tag: Seq<u8>) -> Seq<u8> {
    tag.subrange(0, identity_end(tag))
}

/// `tag` with its first run of digits replaced by the decimal text of `n`.
/// A tag without a digit stays as it is.
pub open spec fn with_number(tag: Seq<u8>, n: nat) -> Seq<u8> {
    let start = digit_run_start(tag);
    let end = digit_run_end(tag);
    if start >= tag.len() {
        tag
    } else {
        tag.subrange(0, start) + decimal(n) + tag.subrange(end, tag.len() as int)
    }
}

/// The part of a tag before its first digit: all of it where it holds no
/// digit.
pub open spec fn stem(tag: Seq<u8>) -> Seq<u8> {
    tag.subrange(0, digit_run_start(tag))
}

/// The scan for the first digit of `tag` from `i` on.
fn find_digit(tag: &[u8], i: usize) -> (r: usize)
    requires
        i <= tag.len(),
    ensures
        r == next_digit(tag@, i as int),
        i <= r <= tag.len(),
{
    let mut k: usize = i;
    while k < tag.len() && !is_ascii_digit(tag[k])
        invariant
            i <= k <= tag.len(),
            next_digit(tag@, k as int) == next_digit(tag@, i as int),
        decreases tag.len() - k,
    {
        k += 1;
    }
    k
}

/// The scan for the first byte of `tag` from `i` on that is no digit.
fn find_non_digit(tag: &[u8], i: usize) -> (r: usize)
    requires
        i <= tag.len(),
    ensures
        r == next_non_digit(tag@, i as int),
        i <= r <= tag.len(),
{
    let mut k: usize = i;
    while k < tag.len() && is_ascii_digit(tag[k])
        invariant
            i <= k <= tag.len(),
            next_non_digit(tag@, k as int) == next_non_digit(tag@, i as int),
        decreases tag.len() - k,
    {
        k += 1;
    }
    k
}

/// The identity of the item that `tag` belongs to, such as `pikex36` for
/// `pikex36Transform`.
pub fn get_item_id(tag: &Vec<u8>) -> (id: Vec<u8>)
    ensures
        id@ == item_identity(tag@),
{
    let bytes = tag.as_slice();
    let start = find_digit(bytes, 0);
    let end = find_non_digit(bytes, start);
    let cut: usize = if end - start > 2 && starts_with(bytes, "spraycan".as_bytes()) {
        start + 2
    } else {
        end
    };
    copy_range(bytes, 0, cut)
}

/// Gives the tag of `e` the number `n`: `sausagesx11Transform` becomes
/// `sausagesx7Transform` for 7. A tag without a digit, and the payload, stay
/// as they are.
pub fn tag_set_new_count(e: &mut Entry, n: usize)
    ensures
        final(e).tag@ == with_number(old(e).tag@, n as nat),
        final(e).data == old(e).data,
{
    let bytes = e.tag.as_slice();
    let start = find_digit(bytes, 0);
    if start < bytes.len() {
        let end = find_non_digit(bytes, start);
        let mut tag = copy_range(bytes, 0, start);
        let number = decimal_text(n);
        append_bytes(&mut tag, number.as_slice());
        append_bytes(&mut tag, vstd::slice::slice_subrange(bytes, end, bytes.len()));
        e.tag = tag;
    }
}

/// `next_digit` finds the first digit from `i` on.
pub proof fn lemma_next_digit(tag: Seq<u8>, i: int)
    requires
        0 <= i <= tag.len(),
    ensures
        i <= next_digit(tag, i) <= tag.len(),
        forall|k: int| i <= k < next_digit(tag, i) ==> !is_digit(#[trigger] tag[k]),
        next_digit(tag, i) < tag.len() ==> is_digit(tag[next_digit(tag, i)]),
    decreases tag.len() - i,
{
    if i < tag.len() && !is_digit(tag[i]) {
        lemma_next_digit(tag, i + 1);
    }
}

/// `next_non_digit` finds the end of the digits that begin at `i`.
pub proof fn lemma_next_non_digit(tag: Seq<u8>, i: int)
    requires
        0 <= i <= tag.len(),
    ensures
        i <= next_non_digit(tag, i) <= tag.len(),
        forall|k: int| i <= k < next_non_digit(tag, i) ==> is_digit(#[trigger] tag[k]),
        next_non_digit(tag, i) < tag.len() ==> !is_digit(tag[next_non_digit(tag, i)]),
    decreases tag.len() - i,
{
    if i < tag.len() && is_digit(tag[i]) {
        lemma_next_non_digit(tag, i + 1);
    }
}

/// The first run of digits of a tag: nothing before it is a digit, all of
/// it is, and what follows it is not. It is empty only where the tag holds
/// no digit.
pub proof fn lemma_digit_run(tag: Seq<u8>)
    ensures
        0 <= digit_run_start(tag) <= digit_run_end(tag) <= tag.len(),
        forall|k: int| 0 <= k < digit_run_start(tag) ==> !is_digit(#[trigger] tag[k]),
        forall|k: int|
            digit_run_start(tag) <= k < digit_run_end(tag) ==> is_digit(#[trigger] tag[k]),
        digit_run_end(tag) < tag.len() ==> !is_digit(tag[digit_run_end(tag)]),
        digit_run_start(tag) < tag.len() ==> digit_run_start(tag) < digit_run_end(tag),
        digit_run_start(tag) <= identity_end(tag) <= digit_run_end(tag),
        digit_run_start(tag) < tag.len() ==> digit_run_start(tag) < identity_end(tag),
{
    lemma_next_digit(tag, 0);
    lemma_next_non_digit(tag, digit_run_start(tag));
}

/// Digits that follow what is no digit, and are followed by none, are the
/// first run of digits.
pub proof fn lemma_digit_run_is(tag: Seq<u8>, start: int, end: int)
    requires
        0 <= start < end <= tag.len(),
        forall|k: int| 0 <= k < start ==> !is_digit(#[trigger] tag[k]),
        forall|k: int| start <= k < end ==> is_digit(#[trigger] tag[k]),
        end < tag.len() ==> !is_digit(tag[end]),
    ensures
        digit_run_start(tag) == start,
        digit_run_end(tag) == end,
{
    lemma_digit_run(tag);
    let s = digit_run_start(tag);
    let e = digit_run_end(tag);
    assert(s == start) by {
        if s < start {
            assert(is_digit(tag[s]));
        }
        if s > start {
            assert(is_digit(tag[start]));
        }
    }
    assert(e == end) by {
        if e < end {
            assert(is_digit(tag[e]));
        }
        if e > end {
            assert(is_digit(tag[end]));
        }
    }
}

/// The first digit of a tag stands where a digit follows what holds none.
pub proof fn lemma_digit_run_starts(tag: Seq<u8>, start: int)
    requires
        0 <= start < tag.len(),
        forall|k: int| 0 <= k < start ==> !is_digit(#[trigger] tag[k]),
        is_digit(tag[start]),
    ensures
        digit_run_start(tag) == start,
{
    lemma_digit_run(tag);
    let s = digit_run_start(tag);
    if s < start {
        assert(is_digit(tag[s]));
    }
    if s > start {
        assert(!is_digit(tag[start]));
    }
}

/// The identity of a tag begins as the tag does: it has the tag's stem, and
/// then digits to its end.
pub proof fn lemma_identity_shape(tag: Seq<u8>)
    ensures
        item_identity(tag).is_prefix_of(tag),
        digit_run_start(item_identity(tag)) == digit_run_start(tag),
        stem(item_identity(tag)) == stem(tag),
        digit_run_start(tag) < tag.len() ==> digit_run_start(item_identity(tag)) < item_identity(
            tag,
        ).len() && digit_run_end(item_identity(tag)) == item_identity(tag).len(),
        digit_run_start(tag) >= tag.len() ==> item_identity(tag) == tag,
{
    lemma_digit_run(tag);
    let id = item_identity(tag);
    let start = digit_run_start(tag);
    assert(id =~= tag.subrange(0, id.len() as int));
    if start < tag.len() {
        lemma_digit_run_is(id, start, id.len() as int);
        assert(stem(id) =~= stem(tag));
    } else {
        assert(id =~= tag);
    }
}

/// A tag that holds no digit is its own identity.
pub proof fn lemma_identity_without_digits(tag: Seq<u8>)
    requires
        digit_free(tag),
    ensures
        item_identity(tag) == tag,
{
    lemma_digit_run(tag);
    if digit_run_start(tag) < tag.len() {
        assert(is_digit(tag[digit_run_start(tag)]));
    }
    assert(item_identity(tag) =~= tag);
}

/// A tag that ends with its only digit is its own identity.
pub proof fn lemma_identity_with_last_digit(tag: Seq<u8>)
    requires
        tag.len() > 0,
        digit_free(tag.drop_last()),
        is_digit(tag.last()),
    ensures
        item_identity(tag) == tag,
{
    lemma_digit_run(tag);
    let start = digit_run_start(tag);
    if start < tag.len() - 1 {
        assert(tag[start] == tag.drop_last()[start]);
    }
    if start >= tag.len() {
        assert(!is_digit(tag[tag.len() - 1]));
    }
    assert(item_identity(tag) =~= tag);
}

/// A prefix of a tag that holds no digit is a prefix of the tag's identity.
pub proof fn lemma_digit_free_prefix_of_identity(tag: Seq<u8>, prefix: Seq<u8>)
    requires
        prefix.is_prefix_of(tag),
        digit_free(prefix),
    ensures
        prefix.is_prefix_of(item_identity(tag)),
{
    lemma_digit_run(tag);
    let start = digit_run_start(tag);
    if start < prefix.len() {
        assert(prefix[start] == tag.subrange(0, prefix.len() as int)[start]);
    }
    assert(prefix =~= item_identity(tag).subrange(0, prefix.len() as int));
}

/// A prefix of a tag that holds no digit is a prefix of the tag's stem.
pub proof fn lemma_stem_holds_prefix(tag: Seq<u8>, prefix: Seq<u8>)
    requires
        prefix.is_prefix_of(tag),
        digit_free(prefix),
    ensures
        prefix.is_prefix_of(stem(tag)),
{
    lemma_digit_run(tag);
    let start = digit_run_start(tag);
    if start < prefix.len() {
        assert(prefix[start] == tag.subrange(0, prefix.len() as int)[start]);
    }
    assert(prefix =~= stem(tag).subrange(0, prefix.len() as int));
}

/// What the stem of a tag begins with, the tag begins with.
pub proof fn lemma_prefix_of_stem(tag: Seq<u8>, prefix: Seq<u8>)
    requires
        prefix.is_prefix_of(stem(tag)),
    ensures
        prefix.is_prefix_of(tag),
{
    lemma_digit_run(tag);
    assert(prefix =~= tag.subrange(0, prefix.len() as int)) by {
        assert forall|k: int| 0 <= k < prefix.len() implies prefix[k] == tag[k] by {
            assert(prefix[k] == stem(tag).subrange(0, prefix.len() as int)[k]);
        }
    }
}

/// The word `spraycan` is eight letters.
pub proof fn lemma_spraycan()
    ensures
        spraycan().len() == 8,
        forall|k: int| 0 <= k < 8 ==> !is_digit(#[trigger] spraycan()[k]),
{
    reveal_strlit("spraycan");
    is_ascii_spec_bytes("spraycan");
}

/// A tag begins with `spraycan` where its identity does.
pub proof fn lemma_spraycan_identity(tag: Seq<u8>)
    ensures
        spraycan().is_prefix_of(tag) <==> spraycan().is_prefix_of(item_identity(tag)),
{
    lemma_spraycan();
    lemma_digit_run(tag);
    lemma_identity_shape(tag);
    let id = item_identity(tag);
    if spraycan().is_prefix_of(tag) {
        let start = digit_run_start(tag);
        if start < 8 {
            assert(spraycan()[start] == tag.subrange(0, 8)[start]);
        }
        assert(spraycan() =~= id.subrange(0, 8)) by {
            assert forall|k: int| 0 <= k < 8 implies spraycan()[k] == id[k] by {
                assert(spraycan()[k] == tag.subrange(0, 8)[k]);
            }
        }
    }
    if spraycan().is_prefix_of(id) {
        assert(spraycan() =~= tag.subrange(0, 8)) by {
            assert forall|k: int| 0 <= k < 8 implies spraycan()[k] == tag[k] by {
                assert(spraycan()[k] == id.subrange(0, 8)[k]);
            }
        }
    }
}

} // verus!
