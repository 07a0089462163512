//! Numbers and lists of numbers as bytes, the low byte first.

use vstd::prelude::*;

verus! {

/// The low `width` bytes of `n`, the lowest first.
pub open spec fn le(n: nat, width: nat) -> Seq<u8>
    decreases width,
{
    if width == 0 {
        Seq::empty()
    } else {
        seq![(n % 256) as u8] + le(n / 256, (width - 1) as nat)
    }
}

/// The number whose bytes are `s`, the lowest first.
pub open spec fn un_le(s: Seq<u8>) -> nat
    decreases s.len(),
{
    if s.len() == 0 {
        0
    } else {
        s[0] as nat + 256 * un_le(s.skip(1))
    }
}

/// How many numbers `width` bytes can hold.
pub open spec fn range_of(width: nat) -> nat
    decreases width,
{
    if width == 0 {
        1
    } else {
        256 * range_of((width - 1) as nat)
    }
}

/// How many numbers one, two, four and eight bytes can hold.
pub proof fn lemma_ranges()
    ensures
        range_of(1) == 0x100,
        range_of(2) == 0x1_0000,
        range_of(4) == 0x1_0000_0000,
        range_of(8) == 0x1_0000_0000_0000_0000,
{
    reveal_with_fuel(range_of, 9);
}

proof fn lemma_range_grows(a: nat, b: nat)
    requires
        a <= b,
    ensures
        range_of(a) <= range_of(b),
        0 < range_of(a),
    decreases b,
{
    if a < b {
        lemma_range_grows(a, (b - 1) as nat);
    } else if a > 0 {
        lemma_range_grows((a - 1) as nat, (b - 1) as nat);
    }
}

/// As many bytes as asked for.
pub proof fn lemma_le_len(n: nat, width: nat)
    ensures
        le(n, width).len() == width,
    decreases width,
{
    if width > 0 {
        lemma_le_len(n / 256, (width - 1) as nat);
    }
}

/// A number that fits in `width` bytes is given back by them.
pub proof fn law_le_round_trip(n: nat, width: nat)
    requires
        n < range_of(width),
    ensures
        le(n, width).len() == width,
        un_le(le(n, width)) == n,
    decreases width,
{
    lemma_le_len(n, width);
    if width > 0 {
        law_le_round_trip(n / 256, (width - 1) as nat);
        assert(le(n, width).skip(1) =~= le(n / 256, (width - 1) as nat));
    }
}

/// The number of some bytes is within their range.
pub proof fn lemma_un_le_fits(s: Seq<u8>)
    ensures
        un_le(s) < range_of(s.len()),
    decreases s.len(),
{
    if s.len() > 0 {
        lemma_un_le_fits(s.skip(1));
    }
}

/// Puts the low `width` bytes of `n` at the end of `out`.
fn put_le(n: u64, width: usize, out: &mut Vec<u8>)
    ensures
        final(out)@ == old(out)@ + le(n as nat, width as nat),
{
    let mut rest: u64 = n;
    let mut k: usize = 0;
    let ghost mut done: Seq<u8> = Seq::empty();
    while k < width
        invariant
            k <= width,
            out@ == old(out)@ + done,
            le(n as nat, width as nat) == done + le(rest as nat, (width - k) as nat),
        decreases width - k,
    {
        let b: u8 = (rest % 256) as u8;
        let ghost tail = le(rest as nat, (width - k) as nat);
        out.push(b);
        rest = rest / 256;
        k += 1;
        proof {
            assert(tail == seq![b] + le(rest as nat, (width - k) as nat));
            assert(done + tail =~= done.push(b) + le(rest as nat, (width - k) as nat));
            done = done.push(b);
        }
    }
    assert(done + Seq::<u8>::empty() =~= done);
}

/// The number that the `width` bytes from `at` on hold.
fn get_le(b: &[u8], at: usize, width: usize) -> (r: u64)
    requires
        width <= 8,
        at + width <= b@.len(),
    ensures
        r == un_le(b@.subrange(at as int, at + width)),
{
    let ghost s = b@.subrange(at as int, at + width);
    let mut acc: u64 = 0;
    let mut k: usize = width;
    assert(s.skip(k as int) =~= Seq::empty());
    while k > 0
        invariant
            k <= width <= 8,
            at + width <= b@.len(),
            s == b@.subrange(at as int, at + width),
            acc == un_le(s.skip(k as int)),
        decreases k,
    {
        proof {
            lemma_un_le_fits(s.skip(k as int));
            lemma_ranges();
            lemma_range_grows((width - k + 1) as nat, 8);
            assert(range_of((width - k + 1) as nat) == 256 * range_of((width - k) as nat));
            assert(s.skip(k as int).len() == width - k);
            assert(s.skip(k - 1).skip(1) =~= s.skip(k as int));
            assert(s.skip(k - 1)[0] == s[k - 1]);
            assert(b@.len() == b.len());
        }
        k -= 1;
        acc = acc * 256 + b[at + k] as u64;
    }
    assert(s.skip(0) =~= s);
    acc
}

/// A number of a fixed width.
pub trait Word: Sized + Copy {
    /// How many bytes it takes.
    spec fn width() -> nat;

    /// The number.
    spec fn value(self) -> nat;

    /// The word of a number.
    spec fn of(n: nat) -> Self;

    /// A word fits in its bytes and is made of its number.
    proof fn lemma_word(self)
        ensures
            1 <= Self::width() <= 8,
            self.value() < range_of(Self::width()),
            Self::of(self.value()) == self,
    ;

    /// How many bytes a word takes.
    fn bytes() -> (r: usize)
        ensures
            r == Self::width(),
            1 <= r <= 8,
    ;

    /// Puts the bytes of the word at the end of `out`.
    fn put(self, out: &mut Vec<u8>)
        ensures
            final(out)@ == old(out)@ + le(self.value(), Self::width()),
    ;

    /// The word whose bytes stand at `at`.
    fn get(b: &[u8], at: usize) -> (r: Self)
        requires
            at + Self::width() <= b@.len(),
        ensures
            r == Self::of(un_le(b@.subrange(at as int, at + Self::width()))),
    ;
}

impl Word for u8 {
    open spec fn width() -> nat {
        1
    }

    open spec fn value(self) -> nat {
        self as nat
    }

    open spec fn of(n: nat) -> u8 {
        n as u8
    }

    proof fn lemma_word(self) {
        lemma_ranges();
    }

    fn bytes() -> (r: usize) {
        1
    }

    fn put(self, out: &mut Vec<u8>) {
        put_le(self as u64, 1, out);
    }

    fn get(b: &[u8], at: usize) -> (r: u8) {
        proof {
            lemma_un_le_fits(b@.subrange(at as int, at + 1));
            lemma_ranges();
        }
        get_le(b, at, 1) as u8
    }
}

impl Word for u16 {
    open spec fn width() -> nat {
        2
    }

    open spec fn value(self) -> nat {
        self as nat
    }

    open spec fn of(n: nat) -> u16 {
        n as u16
    }

    proof fn lemma_word(self) {
        lemma_ranges();
    }

    fn bytes() -> (r: usize) {
        2
    }

    fn put(self, out: &mut Vec<u8>) {
        put_le(self as u64, 2, out);
    }

    fn get(b: &[u8], at: usize) -> (r: u16) {
        proof {
            lemma_un_le_fits(b@.subrange(at as int, at + 2));
            lemma_ranges();
        }
        get_le(b, at, 2) as u16
    }
}

impl Word for u32 {
    open spec fn width() -> nat {
        4
    }

    open spec fn value(self) -> nat {
        self as nat
    }

    open spec fn of(n: nat) -> u32 {
        n as u32
    }

    proof fn lemma_word(self) {
        lemma_ranges();
    }

    fn bytes() -> (r: usize) {
        4
    }

    fn put(self, out: &mut Vec<u8>) {
        put_le(self as u64, 4, out);
    }

    fn get(b: &[u8], at: usize) -> (r: u32) {
        proof {
            lemma_un_le_fits(b@.subrange(at as int, at + 4));
            lemma_ranges();
        }
        get_le(b, at, 4) as u32
    }
}

impl Word for u64 {
    open spec fn width() -> nat {
        8
    }

    open spec fn value(self) -> nat {
        self as nat
    }

    open spec fn of(n: nat) -> u64 {
        n as u64
    }

    proof fn lemma_word(self) {
        lemma_ranges();
    }

    fn bytes() -> (r: usize) {
        8
    }

    fn put(self, out: &mut Vec<u8>) {
        put_le(self as u64, 8, out);
    }

    fn get(b: &[u8], at: usize) -> (r: u64) {
        get_le(b, at, 8)
    }
}

/// The bytes of the words, one word after the other.
pub open spec fn words_bytes<T: Word>(v: Seq<T>) -> Seq<u8>
    decreases v.len(),
{
    if v.len() == 0 {
        Seq::empty()
    } else {
        words_bytes(v.drop_last()) + le(v.last().value(), T::width())
    }
}

/// A list as bytes: how many words, in eight bytes, and the words.
pub open spec fn list_bytes<T: Word>(v: Seq<T>) -> Seq<u8> {
    le(v.len(), 8) + words_bytes(v)
}

/// The `n` words that stand in `b` from `at` on.
pub open spec fn words_at<T: Word>(b: Seq<u8>, at: int, n: nat) -> Seq<T> {
    Seq::new(
        n,
        |i: int|
            T::of(
                un_le(b.subrange(at + i * T::width(), at + i * T::width() + T::width())),
            ),
    )
}

/// Why bytes are no list.
#[derive(Debug, Clone, Copy, PartialEq, Eq, Structural)]
pub enum ListError {
    /// The bytes end too early.
    UnexpectedEof,
    /// More words are announced than all the bytes could hold.
    TooLarge,
}

/// The list that stands in `b` at `at`, and where it ends.
pub open spec fn list_at<T: Word>(b: Seq<u8>, at: int) -> Result<(Seq<T>, int), ListError> {
    if at + 8 > b.len() {
        Err(ListError::UnexpectedEof)
    } else {
        let n = un_le(b.subrange(at, at + 8));
        if n * T::width() > b.len() {
            Err(ListError::TooLarge)
        } else if at + 8 + n * T::width() > b.len() {
            Err(ListError::UnexpectedEof)
        } else {
            Ok((words_at(b, at + 8, n), at + 8 + n * T::width()))
        }
    }
}

proof fn lemma_words_len<T: Word>(v: Seq<T>)
    ensures
        words_bytes(v).len() == v.len() * T::width(),
    decreases v.len(),
{
    if v.len() > 0 {
        lemma_words_len(v.drop_last());
        lemma_le_len(v.last().value(), T::width());
        assert((v.len() - 1) * T::width() + T::width() == v.len() * T::width())
            by (nonlinear_arith);
    }
}

proof fn lemma_word_in_words<T: Word>(v: Seq<T>, i: int)
    requires
        0 <= i < v.len(),
    ensures
        0 <= i * T::width(),
        i * T::width() + T::width() <= words_bytes(v).len(),
        words_bytes(v).subrange(i * T::width(), i * T::width() + T::width()) == le(
            v[i].value(),
            T::width(),
        ),
    decreases v.len(),
{
    let w = T::width() as int;
    lemma_words_len(v);
    lemma_words_len(v.drop_last());
    lemma_le_len(v.last().value(), T::width());
    assert(0 <= i * w && i * w + w <= v.len() * w) by (nonlinear_arith)
        requires
            0 <= i < v.len(),
            0 <= w,
    ;
    let all = words_bytes(v);
    if i == v.len() - 1 {
        assert(all.subrange(i * w, i * w + w) =~= le(v[i].value(), T::width()));
    } else {
        lemma_word_in_words(v.drop_last(), i);
        let most = words_bytes(v.drop_last());
        assert(all.subrange(i * w, i * w + w) =~= most.subrange(i * w, i * w + w));
    }
}

/// A list that was written is read back whole, wherever it stands, up to its
/// end.
pub proof fn law_list_round_trip<T: Word>(before: Seq<u8>, v: Seq<T>, after: Seq<u8>)
    requires
        v.len() <= u64::MAX,
    ensures
        list_at::<T>(before + list_bytes(v) + after, before.len() as int) == Ok::<
            (Seq<T>, int),
            ListError,
        >((v, (before.len() + list_bytes(v).len()) as int)),
{
    let b = before + list_bytes(v) + after;
    let at = before.len() as int;
    let w = T::width();
    lemma_ranges();
    law_le_round_trip(v.len(), 8);
    lemma_words_len(v);
    assert(b.subrange(at, at + 8) =~= le(v.len(), 8));
    let got = words_at::<T>(b, at + 8, v.len());
    assert forall|i: int| 0 <= i < v.len() implies #[trigger] got[i] == v[i] by {
        lemma_word_in_words(v, i);
        v[i].lemma_word();
        law_le_round_trip(v[i].value(), w);
        let s = i * w;
        assert(b.subrange(at + 8 + s, at + 8 + s + w) =~= words_bytes(v).subrange(s, s + w));
    }
    assert(got =~= v);
}

/// Puts a list at the end of `out`.
pub fn write_vec<T: Word>(out: &mut Vec<u8>, v: &[T])
    ensures
        final(out)@ == old(out)@ + list_bytes(v@),
{
    put_le(v.len() as u64, 8, out);
    let ghost head = out@;
    let mut i: usize = 0;
    assert(v@.take(0) =~= Seq::empty());
    while i < v.len()
        invariant
            i <= v@.len(),
            out@ == head + words_bytes(v@.take(i as int)),
        decreases v@.len() - i,
    {
        v[i].put(out);
        proof {
            let t = v@.take(i + 1);
            assert(t.drop_last() =~= v@.take(i as int));
            assert(t.last() == v@[i as int]);
            assert(out@ =~= head + words_bytes(t));
        }
        i += 1;
    }
    assert(v@.take(i as int) =~= v@);
    assert(out@ =~= old(out)@ + list_bytes(v@));
}

/// Reads the list that stands at `at`, and says where it ends.
pub fn read_vec<T: Word>(b: &[u8], at: usize) -> (r: Result<(Vec<T>, usize), ListError>)
    requires
        at <= b@.len(),
    ensures
        match r {
            Ok((v, end)) => end <= b@.len() && list_at::<T>(b@, at as int) == Ok::<
                (Seq<T>, int),
                ListError,
            >((v@, end as int)),
            Err(e) => list_at::<T>(b@, at as int) == Err::<(Seq<T>, int), ListError>(e),
        },
{
    if b.len() - at < 8 {
        return Err(ListError::UnexpectedEof);
    }
    let n: u64 = get_le(b, at, 8);
    let w: usize = T::bytes();
    let start: usize = at + 8;
    assert(0 <= n * w <= 0xffff_ffff_ffff_ffff * 8) by (nonlinear_arith)
        requires
            0 <= n <= 0xffff_ffff_ffff_ffff,
            0 <= w <= 8,
    ;
    let size: u128 = n as u128 * w as u128;
    if size > b.len() as u128 {
        return Err(ListError::TooLarge);
    }
    if size > (b.len() - start) as u128 {
        return Err(ListError::UnexpectedEof);
    }
    let end: usize = start + size as usize;
    let mut v: Vec<T> = Vec::new();
    let mut pos: usize = start;
    let mut i: u64 = 0;
    while i < n
        invariant
            i <= n,
            w == T::width(),
            1 <= w <= 8,
            n * w == end - start,
            pos == start + i * w,
            end <= b@.len(),
            v@.len() == i,
            forall|k: int|
                0 <= k < i ==> #[trigger] v@[k] == T::of(
                    un_le(b@.subrange(start + k * w, start + k * w + w)),
                ),
        decreases n - i,
    {
        proof {
            assert(i * w + w <= n * w && (i + 1) * w == i * w + w) by (nonlinear_arith)
                requires
                    i < n,
                    1 <= w,
            ;
        }
        v.push(T::get(b, pos));
        pos += w;
        i += 1;
    }
    assert(v@ =~= words_at::<T>(b@, start as int, n as nat));
    Ok((v, end))
}

/// The bytes of a number are its remainder by 256 and then the bytes of the
/// quotient; a number of no width has none.
pub proof fn law_lowest_byte_comes_first(n: nat, width: nat)
    ensures
        le(n, 0).len() == 0,
        le(n, width + 1)[0] == n % 256,
        le(n, width + 1).skip(1) == le(n / 256, width),
        le(n, width).len() == width,
{
    assert(le(n, width + 1).skip(1) =~= le(n / 256, width));
    lemma_le_len(n, width);
}

/// A list is written as how many words it has, in eight bytes, and then its words
/// in their order, each in as many bytes as it is wide: one, two, four or eight.
pub proof fn law_list_is_its_length_and_its_words<T: Word>(v: Seq<T>, x: T)
    ensures
        list_bytes(Seq::<T>::empty()) == le(0, 8),
        list_bytes(v.push(x)).skip(8) == list_bytes(v).skip(8) + le(x.value(), T::width()),
        list_bytes(v).take(8) == le(v.len(), 8),
        u8::width() == 1 && u16::width() == 2 && u32::width() == 4 && u64::width() == 8,
{
    lemma_le_len(v.len(), 8);
    lemma_le_len(v.push(x).len(), 8);
    assert(v.push(x).drop_last() =~= v);
    assert(list_bytes(Seq::<T>::empty()) =~= le(0, 8));
    assert(list_bytes(v).skip(8) =~= words_bytes(v));
    assert(list_bytes(v.push(x)).skip(8) =~= words_bytes(v.push(x)));
    assert(list_bytes(v).take(8) =~= le(v.len(), 8));
}

/// Bytes that end before the length of a list, or before its words, are no list;
/// where more words are announced than all the bytes could hold, that is said.
pub proof fn law_cut_lists_are_refused<T: Word>(b: Seq<u8>, at: int)
    requires
        0 <= at,
    ensures
        ({
            let n = un_le(b.subrange(at, at + 8));
            &&& b.len() < at + 8 ==> list_at::<T>(b, at) == Err::<(Seq<T>, int), ListError>(
                ListError::UnexpectedEof,
            )
            &&& b.len() >= at + 8 && n * T::width() > b.len() ==> list_at::<T>(b, at) == Err::<
                (Seq<T>, int),
                ListError,
            >(ListError::TooLarge)
            &&& n * T::width() <= b.len() < at + 8 + n * T::width() && b.len() >= at + 8
                ==> list_at::<T>(b, at) == Err::<(Seq<T>, int), ListError>(ListError::UnexpectedEof)
            &&& b.len() >= at + 8 + n * T::width() && b.len() >= at + 8 ==> list_at::<T>(
                b,
                at,
            ) is Ok && list_at::<T>(b, at)->Ok_0.0.len() == n
        }),
{
    let n = un_le(b.subrange(at, at + 8));
    assert(0 <= n * T::width()) by (nonlinear_arith)
        requires
            0 <= n,
            0 <= T::width(),
    ;
}

} // verus!
