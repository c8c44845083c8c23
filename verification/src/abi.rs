//! The contract ABI's byte layout, as far as this library's calls use it:
//! 32-byte words, padded byte strings, and how each is read back.

use vstd::prelude::*;

verus! {

/// The number of values that `len` bytes can hold: 256 to the power `len`.
pub open spec fn be_limit(len: nat) -> nat
    decreases len,
{
    if len == 0 {
        1
    } else {
        256 * be_limit((len - 1) as nat)
    }
}

/// The `len` low-order bytes of `n`, most significant first.
pub open spec fn be_bytes(n: nat, len: nat) -> Seq<u8>
    decreases len,
{
    if len == 0 {
        Seq::empty()
    } else {
        be_bytes(n / 256, (len - 1) as nat).push((n % 256) as u8)
    }
}

/// The number that a byte string holds, most significant byte first.
pub open spec fn be_value(bytes: Seq<u8>) -> nat
    decreases bytes.len(),
{
    if bytes.len() == 0 {
        0
    } else {
        256 * be_value(bytes.drop_last()) + bytes.last() as nat
    }
}

/// One more than the largest number that fits a word: two to the power 256.
pub open spec fn word_limit() -> nat {
    0x1_0000_0000_0000_0000_0000_0000_0000_0000_0000_0000_0000_0000_0000_0000_0000_0000nat
}

/// The 32-byte word that holds the unsigned integer `n`.
pub open spec fn word(n: nat) -> Seq<u8> {
    be_bytes(n, 32)
}

/// The 32-byte word that holds an address: twelve zero bytes, then the
/// address's twenty.
pub open spec fn address_word(a: Seq<u8>) -> Seq<u8> {
    Seq::new(12, |i: int| 0u8) + a
}

/// A byte string's length rounded up to whole words.
pub open spec fn padded_len(len: nat) -> nat {
    ((len + 31) / 32 * 32) as nat
}

/// How a dynamic byte string is laid out where its offset points: a word
/// with its length, the bytes, and zero bytes up to the next word boundary.
pub open spec fn bytes_tail(data: Seq<u8>) -> Seq<u8> {
    word(data.len()) + data + Seq::new((padded_len(data.len()) - data.len()) as nat, |i: int| 0u8)
}

/// The unsigned integer in the word that starts at `pos`.
pub open spec fn word_at(buf: Seq<u8>, pos: int) -> nat {
    be_value(buf.subrange(pos, pos + 32))
}

/// The address in the word that starts at `pos`.
pub open spec fn address_at(buf: Seq<u8>, pos: int) -> Seq<u8> {
    buf.subrange(pos + 12, pos + 32)
}

/// The dynamic byte string whose length word starts at `pos`.
pub open spec fn bytes_at(buf: Seq<u8>, pos: int) -> Seq<u8> {
    buf.subrange(pos + 32, pos + 32 + word_at(buf, pos))
}

/// Where the tail of the `i`-th byte string of a `bytes[]` value starts,
/// counted from the array's first head word: behind the `items.len()` head
/// words and the tails of the strings before it.
pub open spec fn bytes_array_offset(items: Seq<Seq<u8>>, i: nat) -> nat
    decreases i,
{
    if i == 0 {
        32 * items.len()
    } else {
        bytes_array_offset(items, (i - 1) as nat) + 32 + padded_len(items[i - 1].len())
    }
}

/// The first `k` head words of a `bytes[]` value: the offsets of its first
/// `k` byte strings.
pub open spec fn bytes_array_heads(items: Seq<Seq<u8>>, k: nat) -> Seq<u8>
    decreases k,
{
    if k == 0 {
        Seq::empty()
    } else {
        bytes_array_heads(items, (k - 1) as nat) + word(
            bytes_array_offset(items, (k - 1) as nat),
        )
    }
}

/// The tails of the first `k` byte strings of a `bytes[]` value.
pub open spec fn bytes_array_tails(items: Seq<Seq<u8>>, k: nat) -> Seq<u8>
    decreases k,
{
    if k == 0 {
        Seq::empty()
    } else {
        bytes_array_tails(items, (k - 1) as nat) + bytes_tail(items[k - 1])
    }
}

/// A `bytes[]` value encoded as the only parameter of a call: the offset
/// 32, the number of byte strings, one head word for each string with the
/// offset of its tail, then the tails in order.
pub open spec fn bytes_array_param(items: Seq<Seq<u8>>) -> Seq<u8> {
    word(32) + word(items.len()) + bytes_array_heads(items, items.len()) + bytes_array_tails(
        items,
        items.len(),
    )
}

/// The `bytes[]` value whose length word starts at `pos`: as many byte
/// strings as the word says, each found through its head word.
pub open spec fn bytes_array_at(buf: Seq<u8>, pos: int) -> Seq<Seq<u8>> {
    Seq::new(
        word_at(buf, pos),
        |i: int| bytes_at(buf, pos + 32 + word_at(buf, pos + 32 + 32 * i)),
    )
}

/// `be_bytes` yields as many bytes as it is asked for.
pub proof fn lemma_be_bytes_len(n: nat, len: nat)
    ensures
        be_bytes(n, len).len() == len,
    decreases len,
{
    if len > 0 {
        lemma_be_bytes_len(n / 256, (len - 1) as nat);
    }
}

/// A number that fits `len` bytes is read back from them unchanged.
pub proof fn lemma_be_round_trip(n: nat, len: nat)
    requires
        n < be_limit(len),
    ensures
        be_value(be_bytes(n, len)) == n,
    decreases len,
{
    if len > 0 {
        let rest = be_bytes(n / 256, (len - 1) as nat);
        lemma_be_round_trip(n / 256, (len - 1) as nat);
        assert(be_bytes(n, len).drop_last() =~= rest);
        assert(be_bytes(n, len).last() == (n % 256) as u8);
    }
}

/// Thirty-two bytes hold the numbers below two to the power 256.
pub proof fn lemma_word_limit()
    ensures
        be_limit(32) == word_limit(),
{
    reveal_with_fuel(be_limit, 33);
}

/// A word is 32 bytes long, and holds the number it was made of.
pub proof fn lemma_word(n: nat)
    ensures
        word(n).len() == 32,
        n < word_limit() ==> be_value(word(n)) == n,
{
    lemma_be_bytes_len(n, 32);
    lemma_word_limit();
    if n < word_limit() {
        lemma_be_round_trip(n, 32);
    }
}

/// The tail of a byte string is a length word and the bytes, padded to
/// whole words.
pub proof fn lemma_bytes_tail_len(data: Seq<u8>)
    ensures
        bytes_tail(data).len() == 32 + padded_len(data.len()),
        data.len() <= padded_len(data.len()) < data.len() + 32,
        padded_len(data.len()) % 32 == 0,
{
    lemma_word(data.len());
}

/// Where a word holding `n` was written, `n` is read.
pub proof fn lemma_word_at(buf: Seq<u8>, pos: int, n: nat)
    requires
        0 <= pos,
        pos + 32 <= buf.len(),
        buf.subrange(pos, pos + 32) == word(n),
        n < word_limit(),
    ensures
        word_at(buf, pos) == n,
{
    lemma_word(n);
}

/// Where an address word was written, the address is read.
pub proof fn lemma_address_at(buf: Seq<u8>, pos: int, a: Seq<u8>)
    requires
        0 <= pos,
        pos + 32 <= buf.len(),
        buf.subrange(pos, pos + 32) == address_word(a),
        a.len() == 20,
    ensures
        address_at(buf, pos) == a,
{
    let w = buf.subrange(pos, pos + 32);
    assert(address_at(buf, pos) =~= w.subrange(12, 32));
    assert(w.subrange(12, 32) =~= a);
}

/// Where the tail of a byte string was written, the string is read.
pub proof fn lemma_bytes_at(buf: Seq<u8>, pos: int, data: Seq<u8>)
    requires
        0 <= pos,
        pos + bytes_tail(data).len() <= buf.len(),
        buf.subrange(pos, pos + bytes_tail(data).len()) == bytes_tail(data),
        data.len() < word_limit(),
    ensures
        word_at(buf, pos) == data.len(),
        bytes_at(buf, pos) == data,
{
    lemma_bytes_tail_len(data);
    lemma_word(data.len());
    let tail = bytes_tail(data);
    assert(buf.subrange(pos, pos + 32) =~= tail.subrange(0, 32));
    assert(tail.subrange(0, 32) =~= word(data.len()));
    assert(word_at(buf, pos) == data.len());
    assert(buf.subrange(pos + 32, pos + 32 + data.len()) =~= tail.subrange(
        32,
        32 + data.len() as int,
    ));
    assert(tail.subrange(32, 32 + data.len() as int) =~= data);
}

/// The offsets of a `bytes[]` value grow with the index, by at least one
/// word a string.
pub proof fn lemma_bytes_array_offset_grows(items: Seq<Seq<u8>>, i: nat, k: nat)
    requires
        i <= k,
    ensures
        bytes_array_offset(items, i) + 32 * (k - i) <= bytes_array_offset(items, k),
    decreases k,
{
    if i < k {
        lemma_bytes_array_offset_grows(items, i, (k - 1) as nat);
    }
}

/// The heads and tails of the first `k` byte strings end where the `k`-th
/// offset points, given that the heads of all strings are in place.
pub proof fn lemma_bytes_array_lens(items: Seq<Seq<u8>>, k: nat)
    requires
        k <= items.len(),
    ensures
        bytes_array_heads(items, k).len() == 32 * k,
        bytes_array_tails(items, k).len() + 32 * items.len() == bytes_array_offset(items, k),
    decreases k,
{
    if k > 0 {
        lemma_bytes_array_lens(items, (k - 1) as nat);
        lemma_word(bytes_array_offset(items, (k - 1) as nat));
        lemma_bytes_tail_len(items[k - 1]);
    }
}

/// The `i`-th head word of a `bytes[]` value holds the `i`-th offset.
pub proof fn lemma_bytes_array_head(items: Seq<Seq<u8>>, k: nat, i: nat)
    requires
        i < k <= items.len(),
    ensures
        bytes_array_heads(items, k).subrange(32 * i as int, 32 * i as int + 32) == word(
            bytes_array_offset(items, i),
        ),
    decreases k,
{
    let before = bytes_array_heads(items, (k - 1) as nat);
    let last = word(bytes_array_offset(items, (k - 1) as nat));
    let start: int = 32 * i as int;
    lemma_bytes_array_lens(items, (k - 1) as nat);
    lemma_word(bytes_array_offset(items, (k - 1) as nat));
    if i == k - 1 {
        assert((before + last).subrange(start, start + 32) =~= last);
    } else {
        lemma_bytes_array_head(items, (k - 1) as nat, i);
        assert((before + last).subrange(start, start + 32) =~= before.subrange(
            start,
            start + 32,
        ));
    }
}

/// The tail of the `i`-th byte string of a `bytes[]` value lies where the
/// `i`-th offset points, less the head words.
pub proof fn lemma_bytes_array_tail(items: Seq<Seq<u8>>, k: nat, i: nat)
    requires
        i < k <= items.len(),
    ensures
        bytes_array_tails(items, k).subrange(
            bytes_array_offset(items, i) - 32 * items.len(),
            bytes_array_offset(items, i) - 32 * items.len() + bytes_tail(items[i as int]).len(),
        ) == bytes_tail(items[i as int]),
    decreases k,
{
    let before = bytes_array_tails(items, (k - 1) as nat);
    let last = bytes_tail(items[k - 1]);
    let start = bytes_array_offset(items, i) - 32 * items.len();
    let end = start + bytes_tail(items[i as int]).len();
    lemma_bytes_array_lens(items, (k - 1) as nat);
    lemma_bytes_array_lens(items, i);
    lemma_bytes_tail_len(items[i as int]);
    if i == k - 1 {
        assert((before + last).subrange(start, end) =~= last);
    } else {
        lemma_bytes_array_tail(items, (k - 1) as nat, i);
        lemma_bytes_array_lens(items, i + 1);
        lemma_bytes_array_offset_grows(items, i + 1, (k - 1) as nat);
        assert((before + last).subrange(start, end) =~= before.subrange(start, end));
    }
}

/// A `bytes[]` parameter is as long as its last offset says, and two words
/// more.
pub proof fn lemma_bytes_array_param_len(items: Seq<Seq<u8>>)
    ensures
        bytes_array_param(items).len() == 64 + bytes_array_offset(items, items.len()),
{
    lemma_word(32);
    lemma_word(items.len());
    lemma_bytes_array_lens(items, items.len());
}

/// Round trip of a `bytes[]` parameter: read where its offset word points,
/// it gives back the byte strings it was made of, in order. The encoding
/// must be short enough for its offsets to fit a word.
pub proof fn lemma_bytes_array_round_trip(items: Seq<Seq<u8>>)
    requires
        bytes_array_param(items).len() < word_limit(),
    ensures
        word_at(bytes_array_param(items), 0) == 32,
        bytes_array_at(bytes_array_param(items), 32) == items,
{
    let n = items.len();
    let heads = bytes_array_heads(items, n);
    let tails = bytes_array_tails(items, n);
    let buf = bytes_array_param(items);
    lemma_word(32);
    lemma_word(n);
    lemma_bytes_array_lens(items, n);
    lemma_bytes_array_param_len(items);
    lemma_bytes_array_offset_grows(items, 0, n);
    assert(buf.subrange(0, 32) =~= word(32));
    assert(buf.subrange(32, 64) =~= word(n));
    lemma_word_at(buf, 0, 32);
    lemma_word_at(buf, 32, n);
    let read = bytes_array_at(buf, 32);
    assert(read.len() == n);
    assert forall|i: int| 0 <= i < n implies #[trigger] read[i] == items[i] by {
        let offset: int = bytes_array_offset(items, i as nat) as int;
        lemma_bytes_array_offset_grows(items, 0, i as nat);
        lemma_bytes_array_offset_grows(items, (i + 1) as nat, n);
        lemma_bytes_array_lens(items, (i + 1) as nat);
        lemma_bytes_tail_len(items[i]);
        lemma_bytes_array_head(items, n, i as nat);
        assert(buf.subrange(64 + 32 * i, 64 + 32 * i + 32) =~= heads.subrange(
            32 * i,
            32 * i + 32,
        ));
        lemma_word_at(buf, 64 + 32 * i, offset as nat);
        lemma_bytes_array_tail(items, n, i as nat);
        let len: int = bytes_tail(items[i]).len() as int;
        assert(buf.subrange(64 + offset, 64 + offset + len) =~= tails.subrange(
            offset - 32 * n,
            offset - 32 * n + len,
        ));
        lemma_bytes_at(buf, 64 + offset, items[i]);
    }
    assert(read =~= items);
}

} // verus!
