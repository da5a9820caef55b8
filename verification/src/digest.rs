//! What goes into a content hash, piece by piece.

use crate::bytes::{law_le_roundtrip, le_bytes, lemma_le_ranges, push_le};
use crate::text::{lemma_bytes_determine_text, texts};
use std::collections::hash_map::DefaultHasher;
use std::hash::Hasher;
use vstd::prelude::*;
use vstd::utf8::encode_utf8;

verus! {

/// What is written for a text: its bytes, and a byte that no text holds.
pub open spec fn text_chunks(text: Seq<char>) -> Seq<Seq<u8>> {
    seq![encode_utf8(text), seq![255u8]]
}

/// What is written for a number.
pub open spec fn number_chunks(n: nat) -> Seq<Seq<u8>> {
    seq![le_bytes(n, 8)]
}

/// What is written for some texts.
pub open spec fn texts_chunks(list: Seq<Seq<char>>) -> Seq<Seq<u8>>
    decreases list.len(),
{
    if list.len() == 0 {
        Seq::empty()
    } else {
        texts_chunks(list.drop_last()) + text_chunks(list.last())
    }
}

/// Writes a text.
pub fn feed_text(state: &mut DefaultHasher, text: &str)
    ensures
        final(state)@ == old(state)@ + text_chunks(text@),
{
    state.write(text.as_bytes());
    let end: [u8; 1] = [255u8];
    assert(end@ =~= seq![255u8]);
    state.write(&end);
    assert(state@ =~= old(state)@ + text_chunks(text@));
}

/// Writes a number.
pub fn feed_number(state: &mut DefaultHasher, n: u64)
    ensures
        final(state)@ == old(state)@ + number_chunks(n as nat),
{
    let mut bytes: Vec<u8> = Vec::new();
    push_le(&mut bytes, n, 8);
    assert(bytes@ =~= le_bytes(n as nat, 8));
    state.write(bytes.as_slice());
    assert(state@ =~= old(state)@ + number_chunks(n as nat));
}

/// Writes a list of texts, its length first.
pub fn feed_texts(state: &mut DefaultHasher, list: &Vec<String>)
    ensures
        final(state)@ == old(state)@ + number_chunks(list@.len()) + texts_chunks(texts(list@)),
{
    feed_number(state, list.len() as u64);
    let ghost start = state@;
    let ghost all = texts(list@);
    let mut i: usize = 0;
    assert(state@ =~= start + texts_chunks(all.take(0)));
    while i < list.len()
        invariant
            i <= list@.len(),
            all == texts(list@),
            state@ == start + texts_chunks(all.take(i as int)),
        decreases list@.len() - i,
    {
        feed_text(state, list[i].as_str());
        assert(all.take(i + 1).drop_last() =~= all.take(i as int));
        assert(state@ =~= start + texts_chunks(all.take(i + 1)));
        i += 1;
    }
    assert(all.take(i as int) =~= all);
}

/// A plain value that fits one word.
pub trait Word: Copy {
    /// The word.
    spec fn word_of(self) -> u64;

    /// The word.
    fn word(self) -> (w: u64)
        ensures
            w == self.word_of(),
    ;
}

impl Word for i8 {
    open spec fn word_of(self) -> u64 {
        self as u64
    }

    fn word(self) -> (w: u64) {
        self as u64
    }
}

impl Word for i16 {
    open spec fn word_of(self) -> u64 {
        self as u64
    }

    fn word(self) -> (w: u64) {
        self as u64
    }
}

impl Word for i32 {
    open spec fn word_of(self) -> u64 {
        self as u64
    }

    fn word(self) -> (w: u64) {
        self as u64
    }
}

impl Word for i64 {
    open spec fn word_of(self) -> u64 {
        self as u64
    }

    fn word(self) -> (w: u64) {
        self as u64
    }
}

impl Word for u8 {
    open spec fn word_of(self) -> u64 {
        self as u64
    }

    fn word(self) -> (w: u64) {
        self as u64
    }
}

impl Word for u16 {
    open spec fn word_of(self) -> u64 {
        self as u64
    }

    fn word(self) -> (w: u64) {
        self as u64
    }
}

impl Word for u32 {
    open spec fn word_of(self) -> u64 {
        self as u64
    }

    fn word(self) -> (w: u64) {
        self as u64
    }
}

impl Word for u64 {
    open spec fn word_of(self) -> u64 {
        self as u64
    }

    fn word(self) -> (w: u64) {
        self as u64
    }
}

impl Word for usize {
    open spec fn word_of(self) -> u64 {
        self as u64
    }

    fn word(self) -> (w: u64) {
        self as u64
    }
}

impl Word for bool {
    open spec fn word_of(self) -> u64 {
        if self {
            1
        } else {
            0
        }
    }

    fn word(self) -> (w: u64) {
        if self {
            1
        } else {
            0
        }
    }
}

/// What is written for some plain values.
pub open spec fn words_chunks<T: Word>(list: Seq<T>) -> Seq<Seq<u8>>
    decreases list.len(),
{
    if list.len() == 0 {
        Seq::empty()
    } else {
        words_chunks(list.drop_last()) + number_chunks(list.last().word_of() as nat)
    }
}

/// Writes a list of plain values, its length first.
pub fn feed_words<T: Word>(state: &mut DefaultHasher, list: &Vec<T>)
    ensures
        final(state)@ == old(state)@ + number_chunks(list@.len()) + words_chunks(list@),
{
    feed_number(state, list.len() as u64);
    let ghost start = state@;
    let mut i: usize = 0;
    assert(state@ =~= start + words_chunks(list@.take(0)));
    while i < list.len()
        invariant
            i <= list@.len(),
            state@ == start + words_chunks(list@.take(i as int)),
        decreases list@.len() - i,
    {
        feed_number(state, list[i].word());
        assert(list@.take(i + 1).drop_last() =~= list@.take(i as int));
        assert(state@ =~= start + words_chunks(list@.take(i + 1)));
        i += 1;
    }
    assert(list@.take(i as int) =~= list@);
}

/// What is written for a number tells the number, whatever is written behind it.
pub proof fn lemma_number_tells(a: nat, b: nat, s: Seq<Seq<u8>>, t: Seq<Seq<u8>>)
    requires
        a <= u64::MAX,
        b <= u64::MAX,
        number_chunks(a) + s == number_chunks(b) + t,
    ensures
        a == b,
        s == t,
{
    let (x, y) = (number_chunks(a) + s, number_chunks(b) + t);
    assert(x[0] == le_bytes(a, 8) && y[0] == le_bytes(b, 8));
    lemma_le_ranges();
    law_le_roundtrip(a, 8);
    law_le_roundtrip(b, 8);
    assert(x.skip(1) =~= s);
    assert(y.skip(1) =~= t);
}

/// What is written for a text tells the text, whatever is written behind it.
pub proof fn lemma_text_tells(a: Seq<char>, b: Seq<char>, s: Seq<Seq<u8>>, t: Seq<Seq<u8>>)
    requires
        text_chunks(a) + s == text_chunks(b) + t,
    ensures
        a == b,
        s == t,
{
    let (x, y) = (text_chunks(a) + s, text_chunks(b) + t);
    assert(x[0] == encode_utf8(a) && y[0] == encode_utf8(b));
    lemma_bytes_determine_text(a, b);
    assert(x.skip(2) =~= s);
    assert(y.skip(2) =~= t);
}

/// What is written for some texts tells them, where their number is known.
pub proof fn lemma_texts_tell(
    a: Seq<Seq<char>>,
    b: Seq<Seq<char>>,
    s: Seq<Seq<u8>>,
    t: Seq<Seq<u8>>,
)
    requires
        a.len() == b.len(),
        texts_chunks(a) + s == texts_chunks(b) + t,
    ensures
        a == b,
        s == t,
    decreases a.len(),
{
    if a.len() == 0 {
        assert(texts_chunks(a) + s =~= s);
        assert(texts_chunks(b) + t =~= t);
        assert(a =~= b);
    } else {
        let (x, y) = (text_chunks(a.last()) + s, text_chunks(b.last()) + t);
        let (c, d) = (a.drop_last(), b.drop_last());
        assert(texts_chunks(a) + s =~= texts_chunks(c) + x);
        assert(texts_chunks(b) + t =~= texts_chunks(d) + y);
        lemma_texts_tell(c, d, x, y);
        lemma_text_tells(a.last(), b.last(), s, t);
        assert(a =~= c.push(a.last()));
        assert(b =~= d.push(b.last()));
    }
}

/// What is written for some sizes tells them, where their number is known.
pub proof fn lemma_sizes_tell(
    a: Seq<usize>,
    b: Seq<usize>,
    s: Seq<Seq<u8>>,
    t: Seq<Seq<u8>>,
)
    requires
        a.len() == b.len(),
        words_chunks(a) + s == words_chunks(b) + t,
    ensures
        a == b,
        s == t,
    decreases a.len(),
{
    if a.len() == 0 {
        assert(words_chunks(a) + s =~= s);
        assert(words_chunks(b) + t =~= t);
        assert(a =~= b);
    } else {
        let (m, n) = (a.last().word_of() as nat, b.last().word_of() as nat);
        let (x, y) = (number_chunks(m) + s, number_chunks(n) + t);
        let (c, d) = (a.drop_last(), b.drop_last());
        assert(words_chunks(a) + s =~= words_chunks(c) + x);
        assert(words_chunks(b) + t =~= words_chunks(d) + y);
        lemma_sizes_tell(c, d, x, y);
        lemma_number_tells(m, n, s, t);
        assert(a =~= c.push(a.last()));
        assert(b =~= d.push(b.last()));
    }
}

} // verus!
