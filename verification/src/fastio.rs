//! A whitespace tokenizer over the program's whole input, and the parsers
//! that read values from its tokens.
use vstd::prelude::*;
use vstd::utf8::{decode_utf8, valid_utf8};

verus! {

/// A byte that separates tokens: anything up to and including the space.
pub open spec fn is_delim(b: u8) -> bool {
    b <= 32
}

/// The first index at or after `i` that holds no delimiter (or the length).
pub open spec fn skip_from(s: Seq<u8>, i: int) -> int
    decreases s.len() - i,
{
    if 0 <= i < s.len() && is_delim(s[i]) {
        skip_from(s, i + 1)
    } else {
        i
    }
}

/// The first index at or after `i` that holds a delimiter (or the length).
pub open spec fn word_from(s: Seq<u8>, i: int) -> int
    decreases s.len() - i,
{
    if 0 <= i < s.len() && !is_delim(s[i]) {
        word_from(s, i + 1)
    } else {
        i
    }
}

/// The next token of `s` from position `p`, and the position after it: the
/// delimiters are skipped, then the run of other bytes is the token. A token
/// that the end of the input cuts off (no delimiter after it) is not
/// returned; the position then moves to the end.
pub open spec fn next_token_spec(s: Seq<u8>, p: int) -> (Option<Seq<u8>>, int) {
    let a = skip_from(s, p);
    let b = word_from(s, a);
    if b >= s.len() {
        (None, s.len() as int)
    } else {
        (Some(s.subrange(a, b)), b)
    }
}

/// `skip_from` stops in range, on a byte that is not a delimiter.
proof fn lemma_skip_from(s: Seq<u8>, i: int)
    requires
        0 <= i <= s.len(),
    ensures
        i <= skip_from(s, i) <= s.len(),
        skip_from(s, i) < s.len() ==> !is_delim(s[skip_from(s, i)]),
    decreases s.len() - i,
{
    if i < s.len() && is_delim(s[i]) {
        lemma_skip_from(s, i + 1);
    }
}

/// `word_from` stops in range, past non-delimiters, on a delimiter or the end.
proof fn lemma_word_from(s: Seq<u8>, i: int)
    requires
        0 <= i <= s.len(),
    ensures
        i <= word_from(s, i) <= s.len(),
        forall|j: int| i <= j < word_from(s, i) ==> !is_delim(#[trigger] s[j]),
        word_from(s, i) < s.len() ==> is_delim(s[word_from(s, i)]),
    decreases s.len() - i,
{
    if i < s.len() && !is_delim(s[i]) {
        lemma_word_from(s, i + 1);
    }
}

/// Where the next token lies.
pub proof fn lemma_next_token(s: Seq<u8>, p: int)
    requires
        0 <= p <= s.len(),
    ensures
        p <= next_token_spec(s, p).1 <= s.len(),
        next_token_spec(s, p).0 is Some ==> p < next_token_spec(s, p).1 < s.len(),
        p == s.len() ==> next_token_spec(s, p).0 is None,
{
    lemma_skip_from(s, p);
    lemma_word_from(s, skip_from(s, p));
    let a = skip_from(s, p);
    if a < s.len() {
        assert(word_from(s, a) == word_from(s, a + 1));
        lemma_word_from(s, a + 1);
    }
}

/// A token is a nonempty run of bytes other than delimiters, and a delimiter
/// follows it in the input.
pub proof fn lemma_token_shape(s: Seq<u8>, p: int)
    requires
        0 <= p <= s.len(),
        next_token_spec(s, p).0 is Some,
    ensures
        ({
            let t = next_token_spec(s, p).0->0;
            let q = next_token_spec(s, p).1;
            &&& t.len() >= 1
            &&& forall|i: int| 0 <= i < t.len() ==> !is_delim(#[trigger] t[i])
            &&& q < s.len() && is_delim(s[q])
            &&& t == s.subrange(q - t.len(), q)
        }),
{
    lemma_skip_from(s, p);
    let a = skip_from(s, p);
    lemma_word_from(s, a);
    let b = word_from(s, a);
    lemma_next_token(s, p);
    assert(word_from(s, a) == word_from(s, a + 1));
    lemma_word_from(s, a + 1);
    let t = s.subrange(a, b);
    assert forall|i: int| 0 <= i < t.len() implies !is_delim(#[trigger] t[i]) by {
        assert(t[i] == s[a + i]);
    }
    assert(b - t.len() == a);
}

/// A reader of whitespace-separated tokens from the program's input.
pub struct IStream {
    buf: Vec<u8>,
    off: usize,
}

impl View for IStream {
    type V = (Seq<u8>, int);

    /// The whole input, and the position of the next unread byte.
    closed spec fn view(&self) -> (Seq<u8>, int) {
        (self.buf@, self.off as int)
    }
}

impl IStream {
    #[verifier::type_invariant]
    spec fn wf(self) -> bool {
        self.off <= self.buf@.len()
    }

    /// A reader at the start of `input`.
    pub fn new(input: Vec<u8>) -> (r: Self)
        ensures
            r@ == (input@, 0int),
    {
        IStream { buf: input, off: 0 }
    }

    /// Moves past the delimiters at the position.
    pub fn skip_whitespace(&mut self)
        ensures
            final(self)@.0 == old(self)@.0,
            final(self)@.1 == skip_from(old(self)@.0, old(self)@.1),
    {
        proof {
            use_type_invariant(&*self);
        }
        let len = self.buf.len();
        let mut i = self.off;
        while i < len && self.buf[i] <= 32u8
            invariant
                len == self.buf@.len(),
                self.off <= i <= len,
                skip_from(self.buf@, i as int) == skip_from(self.buf@, self.off as int),
            decreases len - i,
        {
            i += 1;
        }
        self.off = i;
    }

    /// The unread bytes.
    pub fn remain(&self) -> (r: &[u8])
        ensures
            r@ == self@.0.subrange(self@.1, self@.0.len() as int),
    {
        proof {
            use_type_invariant(self);
        }
        let s = self.buf.as_slice();
        &s[self.off..self.buf.len()]
    }

    /// The next token, as `next_token_spec` says.
    pub fn next_token(&mut self) -> (r: Option<Vec<u8>>)
        ensures
            final(self)@.0 == old(self)@.0,
            final(self)@.1 == next_token_spec(old(self)@.0, old(self)@.1).1,
            r matches Some(t) ==> next_token_spec(old(self)@.0, old(self)@.1).0 == Some(t@),
            r is None ==> next_token_spec(old(self)@.0, old(self)@.1).0 is None,
            0 <= old(self)@.1 <= old(self)@.0.len(),
    {
        proof {
            use_type_invariant(&*self);
        }
        self.skip_whitespace();
        proof {
            use_type_invariant(&*self);
        }
        let len = self.buf.len();
        let start = self.off;
        let mut token: Vec<u8> = Vec::new();
        let mut i = start;
        while i < len && self.buf[i] > 32u8
            invariant
                len == self.buf@.len(),
                start <= i <= len,
                word_from(self.buf@, i as int) == word_from(self.buf@, start as int),
                token@ == self.buf@.subrange(start as int, i as int),
            decreases len - i,
        {
            token.push(self.buf[i]);
            i += 1;
        }
        if i >= len {
            self.off = len;
            return None;
        }
        self.off = i;
        Some(token)
    }
}

/// An ASCII decimal digit.
pub open spec fn is_digit(b: u8) -> bool {
    48 <= b <= 57
}

/// The value of a string of decimal digits.
pub open spec fn digits_value(s: Seq<u8>) -> int
    decreases s.len(),
{
    if s.len() == 0 {
        0
    } else {
        digits_value(s.drop_last()) * 10 + (s.last() - 48)
    }
}

/// The bytes after an optional sign: `+`, or `-` when the type is signed.
pub open spec fn int_digits(s: Seq<u8>, signed: bool) -> Seq<u8> {
    if s.len() > 0 && (s[0] == 43 || (s[0] == 45 && signed)) {
        s.drop_first()
    } else {
        s
    }
}

/// Every byte is a decimal digit.
pub open spec fn all_digits(d: Seq<u8>) -> bool {
    forall|i: int| 0 <= i < d.len() ==> is_digit(#[trigger] d[i])
}

/// The integer that `str::parse` reads from the bytes `s` for an integer type
/// with values `min..=max`: an optional `+` (or `-` when the type is signed)
/// followed by at least one decimal digit and nothing else, whose value lies
/// in the range.
pub open spec fn parse_int_spec(s: Seq<u8>, min: int, max: int) -> Option<int> {
    let neg = s.len() > 0 && s[0] == 45 && min < 0;
    let d = int_digits(s, min < 0);
    if d.len() == 0 || !all_digits(d) {
        None
    } else {
        let v = if neg {
            -digits_value(d)
        } else {
            digits_value(d)
        };
        if min <= v <= max {
            Some(v)
        } else {
            None
        }
    }
}

/// Appending a digit multiplies the value by ten and adds the digit.
proof fn lemma_digits_step(s: Seq<u8>, a: int, i: int)
    requires
        0 <= a <= i < s.len(),
    ensures
        digits_value(s.subrange(a, i + 1)) == digits_value(s.subrange(a, i)) * 10 + (s[i] - 48),
{
    assert(s.subrange(a, i + 1).drop_last() =~= s.subrange(a, i));
}

/// Reads an integer of the range `min..=max` from the bytes of a token, as
/// `str::parse` does.
pub fn parse_int(tok: &Vec<u8>, min: i128, max: i128) -> (r: Option<i128>)
    requires
        -0x1_0000_0000_0000_0000 <= min <= 0 <= max <= 0x1_0000_0000_0000_0000,
    ensures
        r matches Some(v) ==> parse_int_spec(tok@, min as int, max as int) == Some(v as int),
        r is None ==> parse_int_spec(tok@, min as int, max as int) is None,
{
    let n = tok.len();
    let mut i: usize = 0;
    let mut neg = false;
    if n > 0 && tok[0] == 43u8 {
        i = 1;
    } else if n > 0 && tok[0] == 45u8 && min < 0 {
        i = 1;
        neg = true;
    }
    let ghost digits = tok@.subrange(i as int, n as int);
    proof {
        if i == 1 {
            assert(digits =~= tok@.drop_first());
        } else {
            assert(digits =~= tok@);
        }
        assert(digits == int_digits(tok@, min < 0));
    }
    if i >= n {
        return None;
    }
    let start = i;
    let mut acc: i128 = 0;
    let mut big = false;
    while i < n
        invariant
            n == tok@.len(),
            start <= i <= n,
            digits == tok@.subrange(start as int, n as int),
            digits == int_digits(tok@, min < 0),
            neg == (tok@.len() > 0 && tok@[0] == 45 && min < 0),
            -0x1_0000_0000_0000_0000 <= min <= 0 <= max <= 0x1_0000_0000_0000_0000,
            forall|j: int| start <= j < i ==> is_digit(#[trigger] tok@[j]),
            !big ==> 0 <= acc <= 0x1_0000_0000_0000_0000 && acc == digits_value(
                tok@.subrange(start as int, i as int),
            ),
            big ==> digits_value(tok@.subrange(start as int, i as int)) > 0x1_0000_0000_0000_0000,
        decreases n - i,
    {
        let c = tok[i];
        if c < 48u8 || c > 57u8 {
            proof {
                assert(!is_digit(digits[i - start]));
                assert(!all_digits(digits));
            }
            return None;
        }
        proof {
            lemma_digits_step(tok@, start as int, i as int);
        }
        if !big {
            acc = acc * 10 + (c - 48u8) as i128;
            if acc > 0x1_0000_0000_0000_0000 {
                big = true;
            }
        }
        i += 1;
    }
    proof {
        assert forall|j: int| 0 <= j < digits.len() implies is_digit(#[trigger] digits[j]) by {
            assert(digits[j] == tok@[start + j]);
        }
        assert(tok@.subrange(start as int, n as int) == digits);
    }
    if big {
        return None;
    }
    let v = if neg {
        -acc
    } else {
        acc
    };
    if min <= v && v <= max {
        Some(v)
    } else {
        None
    }
}

/// Reads the sign and the magnitude of an integer from the bytes of a token:
/// `Some((negative, magnitude))` when an optional `+` (or `-` when `signed`)
/// is followed by at least one decimal digit and nothing else, and the value
/// of the digits fits in a `u128`.
pub fn parse_magnitude(tok: &Vec<u8>, signed: bool) -> (r: Option<(bool, u128)>)
    ensures
        ({
            let d = int_digits(tok@, signed);
            match r {
                Some((neg, m)) => {
                    &&& d.len() > 0
                    &&& all_digits(d)
                    &&& digits_value(d) == m
                    &&& neg == (tok@.len() > 0 && tok@[0] == 45 && signed)
                },
                None => d.len() == 0 || !all_digits(d) || digits_value(d) > u128::MAX,
            }
        }),
{
    let n = tok.len();
    let mut i: usize = 0;
    let mut neg = false;
    if n > 0 && tok[0] == 43u8 {
        i = 1;
    } else if n > 0 && tok[0] == 45u8 && signed {
        i = 1;
        neg = true;
    }
    let ghost digits = tok@.subrange(i as int, n as int);
    proof {
        if i == 1 {
            assert(digits =~= tok@.drop_first());
        } else {
            assert(digits =~= tok@);
        }
        assert(digits == int_digits(tok@, signed));
    }
    if i >= n {
        return None;
    }
    let start = i;
    let mut acc: u128 = 0;
    let mut big = false;
    while i < n
        invariant
            n == tok@.len(),
            start <= i <= n,
            digits == tok@.subrange(start as int, n as int),
            digits == int_digits(tok@, signed),
            neg == (tok@.len() > 0 && tok@[0] == 45 && signed),
            forall|j: int| start <= j < i ==> is_digit(#[trigger] tok@[j]),
            !big ==> acc == digits_value(tok@.subrange(start as int, i as int)),
            big ==> digits_value(tok@.subrange(start as int, i as int)) > u128::MAX,
        decreases n - i,
    {
        let c = tok[i];
        if c < 48u8 || c > 57u8 {
            proof {
                assert(!is_digit(digits[i - start]));
                assert(!all_digits(digits));
            }
            return None;
        }
        proof {
            lemma_digits_step(tok@, start as int, i as int);
        }
        if !big {
            match acc.checked_mul(10) {
                None => {
                    big = true;
                },
                Some(t) => match t.checked_add((c - 48u8) as u128) {
                    None => {
                        big = true;
                    },
                    Some(v) => {
                        acc = v;
                    },
                },
            }
        }
        i += 1;
    }
    proof {
        assert forall|j: int| 0 <= j < digits.len() implies is_digit(#[trigger] digits[j]) by {
            assert(digits[j] == tok@[start + j]);
        }
        assert(tok@.subrange(start as int, n as int) == digits);
    }
    if big {
        return None;
    }
    Some((neg, acc))
}

/// The view of an optional value.
pub open spec fn opt_view<T: View>(o: Option<T>) -> Option<T::V> {
    match o {
        Some(v) => Some(v@),
        None => None,
    }
}

/// Types that are read from the tokens of an [`IStream`].
pub trait IterParse: View + Sized {
    /// What reading a value at position `p` of the input `s` gives, and the
    /// position after it.
    spec fn spec_parse(s: Seq<u8>, p: int) -> (Option<Self::V>, int);

    /// Reading moves forward within the input.
    proof fn lemma_parse_moves(s: Seq<u8>, p: int)
        requires
            0 <= p <= s.len(),
        ensures
            p <= Self::spec_parse(s, p).1 <= s.len(),
    ;

    /// Reads a value from the tokens of `it`.
    fn parse_from_iter(it: &mut IStream) -> (r: Option<Self>)
        ensures
            final(it)@.0 == old(it)@.0,
            opt_view(r) == Self::spec_parse(old(it)@.0, old(it)@.1).0,
            final(it)@.1 == Self::spec_parse(old(it)@.0, old(it)@.1).1,
            0 <= old(it)@.1 <= old(it)@.0.len(),
    ;
}

/// Types read from a single token.
pub trait Atom: IterParse {
    /// An atom is read from exactly one token: reading moves to where the
    /// next token ends, and succeeds only when there is a next token.
    proof fn lemma_one_token(s: Seq<u8>, p: int)
        ensures
            Self::spec_parse(s, p).1 == next_token_spec(s, p).1,
            Self::spec_parse(s, p).0 is Some ==> next_token_spec(s, p).0 is Some,
    ;
}

/// Reading an integer of the range `min..=max` from the next token.
pub open spec fn int_atom_spec(s: Seq<u8>, p: int, min: int, max: int) -> (Option<int>, int) {
    let (t, q) = next_token_spec(s, p);
    (
        match t {
            Some(t) => parse_int_spec(t, min, max),
            None => None,
        },
        q,
    )
}

/// Reads an integer of the range `min..=max` from the next token of `it`.
fn read_int(it: &mut IStream, min: i128, max: i128) -> (r: Option<i128>)
    requires
        -0x1_0000_0000_0000_0000 <= min <= 0 <= max <= 0x1_0000_0000_0000_0000,
    ensures
        final(it)@.0 == old(it)@.0,
        final(it)@.1 == int_atom_spec(old(it)@.0, old(it)@.1, min as int, max as int).1,
        r matches Some(v) ==> int_atom_spec(old(it)@.0, old(it)@.1, min as int, max as int).0 == Some(
            v as int,
        ),
        r is None ==> int_atom_spec(old(it)@.0, old(it)@.1, min as int, max as int).0 is None,
        0 <= old(it)@.1 <= old(it)@.0.len(),
        r matches Some(v) ==> min <= v <= max,
{
    match it.next_token() {
        None => None,
        Some(t) => parse_int(&t, min, max),
    }
}

impl IterParse for u8 {
    open spec fn spec_parse(s: Seq<u8>, p: int) -> (Option<u8>, int) {
        let (v, q) = int_atom_spec(s, p, 0, 255);
        (
            match v {
                Some(v) => Some(v as u8),
                None => None,
            },
            q,
        )
    }

    proof fn lemma_parse_moves(s: Seq<u8>, p: int) {
        lemma_next_token(s, p);
    }

    fn parse_from_iter(it: &mut IStream) -> (r: Option<u8>) {
        match read_int(it, 0, 255) {
            Some(v) => Some(v as u8),
            None => None,
        }
    }
}

impl Atom for u8 {
    proof fn lemma_one_token(s: Seq<u8>, p: int) {
    }
}

impl IterParse for u16 {
    open spec fn spec_parse(s: Seq<u8>, p: int) -> (Option<u16>, int) {
        let (v, q) = int_atom_spec(s, p, 0, 65535);
        (
            match v {
                Some(v) => Some(v as u16),
                None => None,
            },
            q,
        )
    }

    proof fn lemma_parse_moves(s: Seq<u8>, p: int) {
        lemma_next_token(s, p);
    }

    fn parse_from_iter(it: &mut IStream) -> (r: Option<u16>) {
        match read_int(it, 0, 65535) {
            Some(v) => Some(v as u16),
            None => None,
        }
    }
}

impl Atom for u16 {
    proof fn lemma_one_token(s: Seq<u8>, p: int) {
    }
}

impl IterParse for u32 {
    open spec fn spec_parse(s: Seq<u8>, p: int) -> (Option<u32>, int) {
        let (v, q) = int_atom_spec(s, p, 0, 4294967295);
        (
            match v {
                Some(v) => Some(v as u32),
                None => None,
            },
            q,
        )
    }

    proof fn lemma_parse_moves(s: Seq<u8>, p: int) {
        lemma_next_token(s, p);
    }

    fn parse_from_iter(it: &mut IStream) -> (r: Option<u32>) {
        match read_int(it, 0, 4294967295) {
            Some(v) => Some(v as u32),
            None => None,
        }
    }
}

impl Atom for u32 {
    proof fn lemma_one_token(s: Seq<u8>, p: int) {
    }
}

impl IterParse for u64 {
    open spec fn spec_parse(s: Seq<u8>, p: int) -> (Option<u64>, int) {
        let (v, q) = int_atom_spec(s, p, 0, 18446744073709551615);
        (
            match v {
                Some(v) => Some(v as u64),
                None => None,
            },
            q,
        )
    }

    proof fn lemma_parse_moves(s: Seq<u8>, p: int) {
        lemma_next_token(s, p);
    }

    fn parse_from_iter(it: &mut IStream) -> (r: Option<u64>) {
        match read_int(it, 0, 18446744073709551615) {
            Some(v) => Some(v as u64),
            None => None,
        }
    }
}

impl Atom for u64 {
    proof fn lemma_one_token(s: Seq<u8>, p: int) {
    }
}

impl IterParse for u128 {
    open spec fn spec_parse(s: Seq<u8>, p: int) -> (Option<u128>, int) {
        let (v, q) = int_atom_spec(s, p, 0, u128::MAX as int);
        (
            match v {
                Some(v) => Some(v as u128),
                None => None,
            },
            q,
        )
    }

    proof fn lemma_parse_moves(s: Seq<u8>, p: int) {
        lemma_next_token(s, p);
    }

    fn parse_from_iter(it: &mut IStream) -> (r: Option<u128>) {
        match it.next_token() {
            None => None,
            Some(t) => match parse_magnitude(&t, false) {
                Some((_neg, m)) => Some(m),
                None => None,
            },
        }
    }
}

impl Atom for u128 {
    proof fn lemma_one_token(s: Seq<u8>, p: int) {
    }
}

impl IterParse for i128 {
    open spec fn spec_parse(s: Seq<u8>, p: int) -> (Option<i128>, int) {
        let (v, q) = int_atom_spec(s, p, i128::MIN as int, i128::MAX as int);
        (
            match v {
                Some(v) => Some(v as i128),
                None => None,
            },
            q,
        )
    }

    proof fn lemma_parse_moves(s: Seq<u8>, p: int) {
        lemma_next_token(s, p);
    }

    fn parse_from_iter(it: &mut IStream) -> (r: Option<i128>) {
        match it.next_token() {
            None => None,
            Some(t) => match parse_magnitude(&t, true) {
                Some((neg, m)) => {
                    if neg {
                        if m <= 0x8000_0000_0000_0000_0000_0000_0000_0000 {
                            if m == 0x8000_0000_0000_0000_0000_0000_0000_0000 {
                                Some(i128::MIN)
                            } else {
                                Some(-(m as i128))
                            }
                        } else {
                            None
                        }
                    } else if m <= 0x7fff_ffff_ffff_ffff_ffff_ffff_ffff_ffff {
                        Some(m as i128)
                    } else {
                        None
                    }
                },
                None => None,
            },
        }
    }
}

impl Atom for i128 {
    proof fn lemma_one_token(s: Seq<u8>, p: int) {
    }
}

impl IterParse for usize {
    open spec fn spec_parse(s: Seq<u8>, p: int) -> (Option<usize>, int) {
        let (v, q) = int_atom_spec(s, p, 0, usize::MAX as int);
        (
            match v {
                Some(v) => Some(v as usize),
                None => None,
            },
            q,
        )
    }

    proof fn lemma_parse_moves(s: Seq<u8>, p: int) {
        lemma_next_token(s, p);
    }

    fn parse_from_iter(it: &mut IStream) -> (r: Option<usize>) {
        match read_int(it, 0, usize::MAX as i128) {
            Some(v) => Some(v as usize),
            None => None,
        }
    }
}

impl Atom for usize {
    proof fn lemma_one_token(s: Seq<u8>, p: int) {
    }
}

impl IterParse for i8 {
    open spec fn spec_parse(s: Seq<u8>, p: int) -> (Option<i8>, int) {
        let (v, q) = int_atom_spec(s, p, -128, 127);
        (
            match v {
                Some(v) => Some(v as i8),
                None => None,
            },
            q,
        )
    }

    proof fn lemma_parse_moves(s: Seq<u8>, p: int) {
        lemma_next_token(s, p);
    }

    fn parse_from_iter(it: &mut IStream) -> (r: Option<i8>) {
        match read_int(it, -128, 127) {
            Some(v) => Some(v as i8),
            None => None,
        }
    }
}

impl Atom for i8 {
    proof fn lemma_one_token(s: Seq<u8>, p: int) {
    }
}

impl IterParse for i16 {
    open spec fn spec_parse(s: Seq<u8>, p: int) -> (Option<i16>, int) {
        let (v, q) = int_atom_spec(s, p, -32768, 32767);
        (
            match v {
                Some(v) => Some(v as i16),
                None => None,
            },
            q,
        )
    }

    proof fn lemma_parse_moves(s: Seq<u8>, p: int) {
        lemma_next_token(s, p);
    }

    fn parse_from_iter(it: &mut IStream) -> (r: Option<i16>) {
        match read_int(it, -32768, 32767) {
            Some(v) => Some(v as i16),
            None => None,
        }
    }
}

impl Atom for i16 {
    proof fn lemma_one_token(s: Seq<u8>, p: int) {
    }
}

impl IterParse for i32 {
    open spec fn spec_parse(s: Seq<u8>, p: int) -> (Option<i32>, int) {
        let (v, q) = int_atom_spec(s, p, -2147483648, 2147483647);
        (
            match v {
                Some(v) => Some(v as i32),
                None => None,
            },
            q,
        )
    }

    proof fn lemma_parse_moves(s: Seq<u8>, p: int) {
        lemma_next_token(s, p);
    }

    fn parse_from_iter(it: &mut IStream) -> (r: Option<i32>) {
        match read_int(it, -2147483648, 2147483647) {
            Some(v) => Some(v as i32),
            None => None,
        }
    }
}

impl Atom for i32 {
    proof fn lemma_one_token(s: Seq<u8>, p: int) {
    }
}

impl IterParse for i64 {
    open spec fn spec_parse(s: Seq<u8>, p: int) -> (Option<i64>, int) {
        let (v, q) = int_atom_spec(s, p, -9223372036854775808, 9223372036854775807);
        (
            match v {
                Some(v) => Some(v as i64),
                None => None,
            },
            q,
        )
    }

    proof fn lemma_parse_moves(s: Seq<u8>, p: int) {
        lemma_next_token(s, p);
    }

    fn parse_from_iter(it: &mut IStream) -> (r: Option<i64>) {
        match read_int(it, -9223372036854775808, 9223372036854775807) {
            Some(v) => Some(v as i64),
            None => None,
        }
    }
}

impl Atom for i64 {
    proof fn lemma_one_token(s: Seq<u8>, p: int) {
    }
}

impl IterParse for isize {
    open spec fn spec_parse(s: Seq<u8>, p: int) -> (Option<isize>, int) {
        let (v, q) = int_atom_spec(s, p, isize::MIN as int, isize::MAX as int);
        (
            match v {
                Some(v) => Some(v as isize),
                None => None,
            },
            q,
        )
    }

    proof fn lemma_parse_moves(s: Seq<u8>, p: int) {
        lemma_next_token(s, p);
    }

    fn parse_from_iter(it: &mut IStream) -> (r: Option<isize>) {
        match read_int(it, isize::MIN as i128, isize::MAX as i128) {
            Some(v) => Some(v as isize),
            None => None,
        }
    }
}

impl Atom for isize {
    proof fn lemma_one_token(s: Seq<u8>, p: int) {
    }
}

/// The bytes of `true`.
pub open spec fn true_bytes() -> Seq<u8> {
    seq![116u8, 114u8, 117u8, 101u8]
}

/// The bytes of `false`.
pub open spec fn false_bytes() -> Seq<u8> {
    seq![102u8, 97u8, 108u8, 115u8, 101u8]
}

impl IterParse for bool {
    open spec fn spec_parse(s: Seq<u8>, p: int) -> (Option<bool>, int) {
        let (t, q) = next_token_spec(s, p);
        (
            match t {
                Some(t) => if t == true_bytes() {
                    Some(true)
                } else if t == false_bytes() {
                    Some(false)
                } else {
                    None
                },
                None => None,
            },
            q,
        )
    }

    proof fn lemma_parse_moves(s: Seq<u8>, p: int) {
        lemma_next_token(s, p);
    }

    fn parse_from_iter(it: &mut IStream) -> (r: Option<bool>) {
        match it.next_token() {
            None => None,
            Some(t) => {
                if t.len() == 4 && t[0] == 116u8 && t[1] == 114u8 && t[2] == 117u8 && t[3] == 101u8 {
                    assert(t@ =~= true_bytes());
                    Some(true)
                } else if t.len() == 5 && t[0] == 102u8 && t[1] == 97u8 && t[2] == 108u8 && t[3]
                    == 115u8 && t[4] == 101u8 {
                    assert(t@ =~= false_bytes());
                    Some(false)
                } else {
                    proof {
                        if t@ == true_bytes() {
                            assert(t@[0] == 116u8);
                        }
                        if t@ == false_bytes() {
                            assert(t@[0] == 102u8);
                        }
                    }
                    None
                }
            },
        }
    }
}

impl Atom for bool {
    proof fn lemma_one_token(s: Seq<u8>, p: int) {
    }
}

/// `String::from_utf8`: the bytes as a string when they are valid UTF-8.
#[verifier::external_body]
fn string_from_utf8(bytes: Vec<u8>) -> (r: Option<String>)
    ensures
        r is Some <==> valid_utf8(bytes@),
        r matches Some(s) ==> s@ == decode_utf8(bytes@),
{
    String::from_utf8(bytes).ok()
}

impl IterParse for String {
    open spec fn spec_parse(s: Seq<u8>, p: int) -> (Option<Seq<char>>, int) {
        let (t, q) = next_token_spec(s, p);
        (
            match t {
                Some(t) => if valid_utf8(t) {
                    Some(decode_utf8(t))
                } else {
                    None
                },
                None => None,
            },
            q,
        )
    }

    proof fn lemma_parse_moves(s: Seq<u8>, p: int) {
        lemma_next_token(s, p);
    }

    fn parse_from_iter(it: &mut IStream) -> (r: Option<String>) {
        match it.next_token() {
            None => None,
            Some(t) => string_from_utf8(t),
        }
    }
}

impl Atom for String {
    proof fn lemma_one_token(s: Seq<u8>, p: int) {
    }
}

impl<A: IterParse, B: IterParse> IterParse for (A, B) {
    open spec fn spec_parse(s: Seq<u8>, p: int) -> (Option<(A::V, B::V)>, int) {
        let (a, p1) = A::spec_parse(s, p);
        match a {
            None => (None, p1),
            Some(av) => {
                let (b, p2) = B::spec_parse(s, p1);
                match b {
                    None => (None, p2),
                    Some(bv) => (Some((av, bv)), p2),
                }
            },
        }
    }

    proof fn lemma_parse_moves(s: Seq<u8>, p: int) {
        A::lemma_parse_moves(s, p);
        B::lemma_parse_moves(s, A::spec_parse(s, p).1);
    }

    fn parse_from_iter(it: &mut IStream) -> (r: Option<(A, B)>) {
        Some((A::parse_from_iter(it)?, B::parse_from_iter(it)?))
    }
}

impl<A: IterParse, B: IterParse, C: IterParse> IterParse for (A, B, C) {
    open spec fn spec_parse(s: Seq<u8>, p: int) -> (Option<(A::V, B::V, C::V)>, int) {
        let (a, p1) = A::spec_parse(s, p);
        match a {
            None => (None, p1),
            Some(av) => {
                let (b, p2) = B::spec_parse(s, p1);
                match b {
                    None => (None, p2),
                    Some(bv) => {
                        let (c, p3) = C::spec_parse(s, p2);
                        match c {
                            None => (None, p3),
                            Some(cv) => (Some((av, bv, cv)), p3),
                        }
                    },
                }
            },
        }
    }

    proof fn lemma_parse_moves(s: Seq<u8>, p: int) {
        A::lemma_parse_moves(s, p);
        let p1 = A::spec_parse(s, p).1;
        B::lemma_parse_moves(s, p1);
        C::lemma_parse_moves(s, B::spec_parse(s, p1).1);
    }

    fn parse_from_iter(it: &mut IStream) -> (r: Option<(A, B, C)>) {
        Some((A::parse_from_iter(it)?, B::parse_from_iter(it)?, C::parse_from_iter(it)?))
    }
}

impl<A: IterParse, B: IterParse, C: IterParse, D: IterParse> IterParse for (A, B, C, D) {
    open spec fn spec_parse(s: Seq<u8>, p: int) -> (Option<(A::V, B::V, C::V, D::V)>, int) {
        let (abc, p3) = <(A, B, C)>::spec_parse(s, p);
        match abc {
            None => (None, p3),
            Some((av, bv, cv)) => {
                let (d, p4) = D::spec_parse(s, p3);
                match d {
                    None => (None, p4),
                    Some(dv) => (Some((av, bv, cv, dv)), p4),
                }
            },
        }
    }

    proof fn lemma_parse_moves(s: Seq<u8>, p: int) {
        <(A, B, C)>::lemma_parse_moves(s, p);
        D::lemma_parse_moves(s, <(A, B, C)>::spec_parse(s, p).1);
    }

    fn parse_from_iter(it: &mut IStream) -> (r: Option<(A, B, C, D)>) {
        let (a, b, c) = <(A, B, C)>::parse_from_iter(it)?;
        Some((a, b, c, D::parse_from_iter(it)?))
    }
}

impl<T1: IterParse, T2: IterParse, T3: IterParse, T4: IterParse, T5: IterParse> IterParse for (T1, T2, T3, T4, T5) {
    open spec fn spec_parse(s: Seq<u8>, p: int) -> (Option<(T1::V, T2::V, T3::V, T4::V, T5::V)>, int) {
        let (front, q) = <(T1, T2, T3, T4)>::spec_parse(s, p);
        match front {
            None => (None, q),
            Some((v1, v2, v3, v4)) => {
                let (l, q2) = T5::spec_parse(s, q);
                match l {
                    None => (None, q2),
                    Some(vl) => (Some((v1, v2, v3, v4, vl)), q2),
                }
            },
        }
    }

    proof fn lemma_parse_moves(s: Seq<u8>, p: int) {
        <(T1, T2, T3, T4)>::lemma_parse_moves(s, p);
        T5::lemma_parse_moves(s, <(T1, T2, T3, T4)>::spec_parse(s, p).1);
    }

    fn parse_from_iter(it: &mut IStream) -> (r: Option<(T1, T2, T3, T4, T5)>) {
        let (a1, a2, a3, a4) = <(T1, T2, T3, T4)>::parse_from_iter(it)?;
        Some((a1, a2, a3, a4, T5::parse_from_iter(it)?))
    }
}

impl<T1: IterParse, T2: IterParse, T3: IterParse, T4: IterParse, T5: IterParse, T6: IterParse> IterParse for (T1, T2, T3, T4, T5, T6) {
    open spec fn spec_parse(s: Seq<u8>, p: int) -> (Option<(T1::V, T2::V, T3::V, T4::V, T5::V, T6::V)>, int) {
        let (front, q) = <(T1, T2, T3, T4, T5)>::spec_parse(s, p);
        match front {
            None => (None, q),
            Some((v1, v2, v3, v4, v5)) => {
                let (l, q2) = T6::spec_parse(s, q);
                match l {
                    None => (None, q2),
                    Some(vl) => (Some((v1, v2, v3, v4, v5, vl)), q2),
                }
            },
        }
    }

    proof fn lemma_parse_moves(s: Seq<u8>, p: int) {
        <(T1, T2, T3, T4, T5)>::lemma_parse_moves(s, p);
        T6::lemma_parse_moves(s, <(T1, T2, T3, T4, T5)>::spec_parse(s, p).1);
    }

    fn parse_from_iter(it: &mut IStream) -> (r: Option<(T1, T2, T3, T4, T5, T6)>) {
        let (a1, a2, a3, a4, a5) = <(T1, T2, T3, T4, T5)>::parse_from_iter(it)?;
        Some((a1, a2, a3, a4, a5, T6::parse_from_iter(it)?))
    }
}

impl<T1: IterParse, T2: IterParse, T3: IterParse, T4: IterParse, T5: IterParse, T6: IterParse, T7: IterParse> IterParse for (T1, T2, T3, T4, T5, T6, T7) {
    open spec fn spec_parse(s: Seq<u8>, p: int) -> (Option<(T1::V, T2::V, T3::V, T4::V, T5::V, T6::V, T7::V)>, int) {
        let (front, q) = <(T1, T2, T3, T4, T5, T6)>::spec_parse(s, p);
        match front {
            None => (None, q),
            Some((v1, v2, v3, v4, v5, v6)) => {
                let (l, q2) = T7::spec_parse(s, q);
                match l {
                    None => (None, q2),
                    Some(vl) => (Some((v1, v2, v3, v4, v5, v6, vl)), q2),
                }
            },
        }
    }

    proof fn lemma_parse_moves(s: Seq<u8>, p: int) {
        <(T1, T2, T3, T4, T5, T6)>::lemma_parse_moves(s, p);
        T7::lemma_parse_moves(s, <(T1, T2, T3, T4, T5, T6)>::spec_parse(s, p).1);
    }

    fn parse_from_iter(it: &mut IStream) -> (r: Option<(T1, T2, T3, T4, T5, T6, T7)>) {
        let (a1, a2, a3, a4, a5, a6) = <(T1, T2, T3, T4, T5, T6)>::parse_from_iter(it)?;
        Some((a1, a2, a3, a4, a5, a6, T7::parse_from_iter(it)?))
    }
}

impl<T1: IterParse, T2: IterParse, T3: IterParse, T4: IterParse, T5: IterParse, T6: IterParse, T7: IterParse, T8: IterParse> IterParse for (T1, T2, T3, T4, T5, T6, T7, T8) {
    open spec fn spec_parse(s: Seq<u8>, p: int) -> (Option<(T1::V, T2::V, T3::V, T4::V, T5::V, T6::V, T7::V, T8::V)>, int) {
        let (front, q) = <(T1, T2, T3, T4, T5, T6, T7)>::spec_parse(s, p);
        match front {
            None => (None, q),
            Some((v1, v2, v3, v4, v5, v6, v7)) => {
                let (l, q2) = T8::spec_parse(s, q);
                match l {
                    None => (None, q2),
                    Some(vl) => (Some((v1, v2, v3, v4, v5, v6, v7, vl)), q2),
                }
            },
        }
    }

    proof fn lemma_parse_moves(s: Seq<u8>, p: int) {
        <(T1, T2, T3, T4, T5, T6, T7)>::lemma_parse_moves(s, p);
        T8::lemma_parse_moves(s, <(T1, T2, T3, T4, T5, T6, T7)>::spec_parse(s, p).1);
    }

    fn parse_from_iter(it: &mut IStream) -> (r: Option<(T1, T2, T3, T4, T5, T6, T7, T8)>) {
        let (a1, a2, a3, a4, a5, a6, a7) = <(T1, T2, T3, T4, T5, T6, T7)>::parse_from_iter(it)?;
        Some((a1, a2, a3, a4, a5, a6, a7, T8::parse_from_iter(it)?))
    }
}

impl<T1: IterParse, T2: IterParse, T3: IterParse, T4: IterParse, T5: IterParse, T6: IterParse, T7: IterParse, T8: IterParse, T9: IterParse> IterParse for (T1, T2, T3, T4, T5, T6, T7, T8, T9) {
    open spec fn spec_parse(s: Seq<u8>, p: int) -> (Option<(T1::V, T2::V, T3::V, T4::V, T5::V, T6::V, T7::V, T8::V, T9::V)>, int) {
        let (front, q) = <(T1, T2, T3, T4, T5, T6, T7, T8)>::spec_parse(s, p);
        match front {
            None => (None, q),
            Some((v1, v2, v3, v4, v5, v6, v7, v8)) => {
                let (l, q2) = T9::spec_parse(s, q);
                match l {
                    None => (None, q2),
                    Some(vl) => (Some((v1, v2, v3, v4, v5, v6, v7, v8, vl)), q2),
                }
            },
        }
    }

    proof fn lemma_parse_moves(s: Seq<u8>, p: int) {
        <(T1, T2, T3, T4, T5, T6, T7, T8)>::lemma_parse_moves(s, p);
        T9::lemma_parse_moves(s, <(T1, T2, T3, T4, T5, T6, T7, T8)>::spec_parse(s, p).1);
    }

    fn parse_from_iter(it: &mut IStream) -> (r: Option<(T1, T2, T3, T4, T5, T6, T7, T8, T9)>) {
        let (a1, a2, a3, a4, a5, a6, a7, a8) = <(T1, T2, T3, T4, T5, T6, T7, T8)>::parse_from_iter(it)?;
        Some((a1, a2, a3, a4, a5, a6, a7, a8, T9::parse_from_iter(it)?))
    }
}

impl<T1: IterParse, T2: IterParse, T3: IterParse, T4: IterParse, T5: IterParse, T6: IterParse, T7: IterParse, T8: IterParse, T9: IterParse, T10: IterParse> IterParse for (T1, T2, T3, T4, T5, T6, T7, T8, T9, T10) {
    open spec fn spec_parse(s: Seq<u8>, p: int) -> (Option<(T1::V, T2::V, T3::V, T4::V, T5::V, T6::V, T7::V, T8::V, T9::V, T10::V)>, int) {
        let (front, q) = <(T1, T2, T3, T4, T5, T6, T7, T8, T9)>::spec_parse(s, p);
        match front {
            None => (None, q),
            Some((v1, v2, v3, v4, v5, v6, v7, v8, v9)) => {
                let (l, q2) = T10::spec_parse(s, q);
                match l {
                    None => (None, q2),
                    Some(vl) => (Some((v1, v2, v3, v4, v5, v6, v7, v8, v9, vl)), q2),
                }
            },
        }
    }

    proof fn lemma_parse_moves(s: Seq<u8>, p: int) {
        <(T1, T2, T3, T4, T5, T6, T7, T8, T9)>::lemma_parse_moves(s, p);
        T10::lemma_parse_moves(s, <(T1, T2, T3, T4, T5, T6, T7, T8, T9)>::spec_parse(s, p).1);
    }

    fn parse_from_iter(it: &mut IStream) -> (r: Option<(T1, T2, T3, T4, T5, T6, T7, T8, T9, T10)>) {
        let (a1, a2, a3, a4, a5, a6, a7, a8, a9) = <(T1, T2, T3, T4, T5, T6, T7, T8, T9)>::parse_from_iter(it)?;
        Some((a1, a2, a3, a4, a5, a6, a7, a8, a9, T10::parse_from_iter(it)?))
    }
}

impl<T1: IterParse, T2: IterParse, T3: IterParse, T4: IterParse, T5: IterParse, T6: IterParse, T7: IterParse, T8: IterParse, T9: IterParse, T10: IterParse, T11: IterParse> IterParse for (T1, T2, T3, T4, T5, T6, T7, T8, T9, T10, T11) {
    open spec fn spec_parse(s: Seq<u8>, p: int) -> (Option<(T1::V, T2::V, T3::V, T4::V, T5::V, T6::V, T7::V, T8::V, T9::V, T10::V, T11::V)>, int) {
        let (front, q) = <(T1, T2, T3, T4, T5, T6, T7, T8, T9, T10)>::spec_parse(s, p);
        match front {
            None => (None, q),
            Some((v1, v2, v3, v4, v5, v6, v7, v8, v9, v10)) => {
                let (l, q2) = T11::spec_parse(s, q);
                match l {
                    None => (None, q2),
                    Some(vl) => (Some((v1, v2, v3, v4, v5, v6, v7, v8, v9, v10, vl)), q2),
                }
            },
        }
    }

    proof fn lemma_parse_moves(s: Seq<u8>, p: int) {
        <(T1, T2, T3, T4, T5, T6, T7, T8, T9, T10)>::lemma_parse_moves(s, p);
        T11::lemma_parse_moves(s, <(T1, T2, T3, T4, T5, T6, T7, T8, T9, T10)>::spec_parse(s, p).1);
    }

    fn parse_from_iter(it: &mut IStream) -> (r: Option<(T1, T2, T3, T4, T5, T6, T7, T8, T9, T10, T11)>) {
        let (a1, a2, a3, a4, a5, a6, a7, a8, a9, a10) = <(T1, T2, T3, T4, T5, T6, T7, T8, T9, T10)>::parse_from_iter(it)?;
        Some((a1, a2, a3, a4, a5, a6, a7, a8, a9, a10, T11::parse_from_iter(it)?))
    }
}

impl<T1: IterParse, T2: IterParse, T3: IterParse, T4: IterParse, T5: IterParse, T6: IterParse, T7: IterParse, T8: IterParse, T9: IterParse, T10: IterParse, T11: IterParse, T12: IterParse> IterParse for (T1, T2, T3, T4, T5, T6, T7, T8, T9, T10, T11, T12) {
    open spec fn spec_parse(s: Seq<u8>, p: int) -> (Option<(T1::V, T2::V, T3::V, T4::V, T5::V, T6::V, T7::V, T8::V, T9::V, T10::V, T11::V, T12::V)>, int) {
        let (front, q) = <(T1, T2, T3, T4, T5, T6, T7, T8, T9, T10, T11)>::spec_parse(s, p);
        match front {
            None => (None, q),
            Some((v1, v2, v3, v4, v5, v6, v7, v8, v9, v10, v11)) => {
                let (l, q2) = T12::spec_parse(s, q);
                match l {
                    None => (None, q2),
                    Some(vl) => (Some((v1, v2, v3, v4, v5, v6, v7, v8, v9, v10, v11, vl)), q2),
                }
            },
        }
    }

    proof fn lemma_parse_moves(s: Seq<u8>, p: int) {
        <(T1, T2, T3, T4, T5, T6, T7, T8, T9, T10, T11)>::lemma_parse_moves(s, p);
        T12::lemma_parse_moves(s, <(T1, T2, T3, T4, T5, T6, T7, T8, T9, T10, T11)>::spec_parse(s, p).1);
    }

    fn parse_from_iter(it: &mut IStream) -> (r: Option<(T1, T2, T3, T4, T5, T6, T7, T8, T9, T10, T11, T12)>) {
        let (a1, a2, a3, a4, a5, a6, a7, a8, a9, a10, a11) = <(T1, T2, T3, T4, T5, T6, T7, T8, T9, T10, T11)>::parse_from_iter(it)?;
        Some((a1, a2, a3, a4, a5, a6, a7, a8, a9, a10, a11, T12::parse_from_iter(it)?))
    }
}

/// Reading up to `k` values at position `p` of `s`, stopping at the first
/// that fails: the values read, and the position after the last attempt.
pub open spec fn parse_many<A: IterParse>(s: Seq<u8>, p: int, k: nat) -> (Seq<A::V>, int)
    decreases k,
{
    if k == 0 {
        (Seq::empty(), p)
    } else {
        let (a, q) = A::spec_parse(s, p);
        match a {
            None => (Seq::empty(), q),
            Some(v) => {
                let (rest, q2) = parse_many::<A>(s, q, (k - 1) as nat);
                (seq![v] + rest, q2)
            },
        }
    }
}

/// Reading `k` values stays within the input and does not move back.
pub proof fn lemma_parse_many_moves<A: IterParse>(s: Seq<u8>, p: int, k: nat)
    requires
        0 <= p <= s.len(),
    ensures
        p <= parse_many::<A>(s, p, k).1 <= s.len(),
        parse_many::<A>(s, p, k).0.len() <= k,
    decreases k,
{
    if k > 0 {
        A::lemma_parse_moves(s, p);
        let q = A::spec_parse(s, p).1;
        lemma_parse_many_moves::<A>(s, q, (k - 1) as nat);
    }
}

/// `N` values read one after the other, as an array `[A; N]` is read.
#[derive(Debug, PartialEq, Eq)]
pub struct Arr<A, const N: usize>(pub Vec<A>);

impl<A: View, const N: usize> View for Arr<A, N> {
    type V = Seq<A::V>;

    /// The views of the values.
    open spec fn view(&self) -> Seq<A::V> {
        views(self.0@)
    }
}

impl<A: IterParse, const N: usize> IterParse for Arr<A, N> {
    /// `N` values read in turn; `None` when one of them does not parse.
    open spec fn spec_parse(s: Seq<u8>, p: int) -> (Option<Seq<A::V>>, int) {
        let (vals, q) = parse_many::<A>(s, p, N as nat);
        (
            if vals.len() == N {
                Some(vals)
            } else {
                None
            },
            q,
        )
    }

    proof fn lemma_parse_moves(s: Seq<u8>, p: int) {
        lemma_parse_many_moves::<A>(s, p, N as nat);
    }

    fn parse_from_iter(it: &mut IStream) -> (r: Option<Arr<A, N>>) {
        proof {
            use_type_invariant(&*it);
        }
        let v = it.read_collect::<A>(N);
        if v.len() == N {
            Some(Arr(v))
        } else {
            None
        }
    }
}

/// The `i`-th value of `parse_many` is what reading one value gives at the
/// position reached after the first `i` values.
pub proof fn lemma_parse_many_index<A: IterParse>(s: Seq<u8>, p: int, k: nat, i: nat)
    requires
        i < parse_many::<A>(s, p, k).0.len(),
    ensures
        A::spec_parse(s, parse_many::<A>(s, p, i).1).0 == Some(parse_many::<A>(s, p, k).0[i as int]),
    decreases i,
{
    let (a, q) = A::spec_parse(s, p);
    if i > 0 {
        let rest = parse_many::<A>(s, q, (k - 1) as nat);
        assert(parse_many::<A>(s, p, k).0 == seq![a->0] + rest.0);
        assert(parse_many::<A>(s, p, k).0[i as int] == rest.0[i - 1]);
        assert(parse_many::<A>(s, p, i).1 == parse_many::<A>(s, q, (i - 1) as nat).1);
        lemma_parse_many_index::<A>(s, q, (k - 1) as nat, (i - 1) as nat);
    }
}

/// Reading an `Arr<A, N>` reads `N` values of `A` in turn: it succeeds exactly
/// when all `N` succeed, stops where the last attempt stops, and its element
/// `i` is the value that reading `A` gives at the position reached after the
/// first `i` values (so the first element is the first value read).
pub proof fn lemma_arr_reads_in_turn<A: IterParse, const N: usize>(s: Seq<u8>, p: int)
    ensures
        <Arr<A, N> as IterParse>::spec_parse(s, p).1 == parse_many::<A>(s, p, N as nat).1,
        <Arr<A, N> as IterParse>::spec_parse(s, p).0 is Some <==> parse_many::<A>(s, p, N as nat).0.len()
            == N,
        <Arr<A, N> as IterParse>::spec_parse(s, p).0 matches Some(vs) ==> {
            &&& vs.len() == N
            &&& forall|i: int|
                0 <= i < N ==> A::spec_parse(s, #[trigger] parse_many::<A>(s, p, i as nat).1).0 == Some(
                    vs[i],
                )
        },
        N >= 1 && <Arr<A, N> as IterParse>::spec_parse(s, p).0 is Some ==> A::spec_parse(s, p).0 == Some(
            <Arr<A, N> as IterParse>::spec_parse(s, p).0->0[0],
        ),
{
    let vals = parse_many::<A>(s, p, N as nat).0;
    if vals.len() == N {
        assert forall|i: int| 0 <= i < N implies A::spec_parse(
            s,
            #[trigger] parse_many::<A>(s, p, i as nat).1,
        ).0 == Some(vals[i]) by {
            lemma_parse_many_index::<A>(s, p, N as nat, i as nat);
        }
        if N >= 1 {
            assert(parse_many::<A>(s, p, 0).1 == p);
            assert(A::spec_parse(s, parse_many::<A>(s, p, 0 as nat).1).0 == Some(vals[0]));
        }
    }
}

/// `f` maps a value whose view is `v` to `b`.
pub open spec fn maps_to<A: View, B, F: Fn(A) -> B>(f: F, v: A::V, b: B) -> bool {
    exists|a: A| a@ == v && call_ensures(f, (a,), b)
}

/// `f` may be called on every value whose view is one of `vals`.
pub open spec fn accepts_values<A: View, B, F: Fn(A) -> B>(f: F, vals: Seq<A::V>) -> bool {
    forall|a: A|
        (exists|i: int| 0 <= i < vals.len() && vals[i] == a@) ==> #[trigger] call_requires(f, (a,))
}

/// The views of a sequence of values.
pub open spec fn views<A: View>(s: Seq<A>) -> Seq<A::V> {
    s.map_values(|a: A| a@)
}

impl IStream {
    /// Reads a value, or `None` when its tokens do not parse.
    pub fn read_checked<A: IterParse>(&mut self) -> (r: Option<A>)
        ensures
            final(self)@.0 == old(self)@.0,
            opt_view(r) == A::spec_parse(old(self)@.0, old(self)@.1).0,
            final(self)@.1 == A::spec_parse(old(self)@.0, old(self)@.1).1,
    {
        A::parse_from_iter(self)
    }

    /// Reads a value whose tokens parse.
    pub fn read<A: IterParse>(&mut self) -> (r: A)
        requires
            A::spec_parse(old(self)@.0, old(self)@.1).0 is Some,
        ensures
            final(self)@.0 == old(self)@.0,
            A::spec_parse(old(self)@.0, old(self)@.1).0 == Some(r@),
            final(self)@.1 == A::spec_parse(old(self)@.0, old(self)@.1).1,
    {
        self.read_checked().unwrap()
    }

    /// Reads up to `size` values, stopping at the first that fails.
    pub fn read_collect<A: IterParse>(&mut self, size: usize) -> (r: Vec<A>)
        ensures
            final(self)@.0 == old(self)@.0,
            views(r@) == parse_many::<A>(old(self)@.0, old(self)@.1, size as nat).0,
            final(self)@.1 == parse_many::<A>(old(self)@.0, old(self)@.1, size as nat).1,
    {
        let ghost s = self@.0;
        let ghost p0 = self@.1;
        let mut v: Vec<A> = Vec::new();
        let mut k: usize = 0;
        while k < size
            invariant
                k <= size,
                self@.0 == s,
                old(self)@ == (s, p0),
                v@.len() == k,
                parse_many::<A>(s, p0, size as nat).0 == views(v@) + parse_many::<A>(
                    s,
                    self@.1,
                    (size - k) as nat,
                ).0,
                parse_many::<A>(s, p0, size as nat).1 == parse_many::<A>(
                    s,
                    self@.1,
                    (size - k) as nat,
                ).1,
            decreases size - k,
        {
            let ghost p = self@.1;
            match A::parse_from_iter(self) {
                Some(a) => {
                    proof {
                        assert(views(v@.push(a)) =~= views(v@) + seq![a@]);
                    }
                    v.push(a);
                    k += 1;
                },
                None => {
                    proof {
                        assert(parse_many::<A>(s, p, (size - k) as nat).0 =~= Seq::<A::V>::empty());
                        assert(views(v@) + Seq::<A::V>::empty() =~= views(v@));
                    }
                    return v;
                },
            }
        }
        proof {
            assert(views(v@) + Seq::<A::V>::empty() =~= views(v@));
        }
        v
    }

    /// Reads values until one fails.
    pub fn read_iter<A: IterParse>(&mut self) -> (r: Vec<A>)
        ensures
            final(self)@.0 == old(self)@.0,
            views(r@) == parse_many::<A>(
                old(self)@.0,
                old(self)@.1,
                (old(self)@.0.len() - old(self)@.1 + 1) as nat,
            ).0,
            final(self)@.1 == parse_many::<A>(
                old(self)@.0,
                old(self)@.1,
                (old(self)@.0.len() - old(self)@.1 + 1) as nat,
            ).1,
    {
        proof {
            use_type_invariant(&*self);
        }
        let ghost s = self@.0;
        let ghost p0 = self@.1;
        let ghost bound = (s.len() - p0 + 1) as nat;
        let rem = self.buf.len() - self.off;
        let mut v: Vec<A> = Vec::new();
        loop
            invariant
                self@.0 == s,
                old(self)@ == (s, p0),
                0 <= p0 <= s.len(),
                rem == s.len() - p0,
                bound == rem + 1,
                v@.len() <= bound,
                parse_many::<A>(s, p0, bound).0 == views(v@) + parse_many::<A>(
                    s,
                    self@.1,
                    (bound - v@.len()) as nat,
                ).0,
                parse_many::<A>(s, p0, bound).1 == parse_many::<A>(
                    s,
                    self@.1,
                    (bound - v@.len()) as nat,
                ).1,
            decreases bound - v@.len(),
        {
            if v.len() > rem {
                proof {
                    assert(parse_many::<A>(s, self@.1, 0).0 =~= Seq::<A::V>::empty());
                    assert(views(v@) + Seq::<A::V>::empty() =~= views(v@));
                }
                return v;
            }
            let ghost p = self@.1;
            match A::parse_from_iter(self) {
                Some(a) => {
                    proof {
                        assert(views(v@.push(a)) =~= views(v@) + seq![a@]);
                    }
                    v.push(a);
                },
                None => {
                    proof {
                        assert(parse_many::<A>(s, p, (bound - v@.len()) as nat).0 =~= Seq::<
                            A::V,
                        >::empty());
                        assert(views(v@) + Seq::<A::V>::empty() =~= views(v@));
                    }
                    return v;
                },
            }
        }
    }

    /// Reads `N` values, which must all parse, and maps them with `f`.
    pub fn read_map<A: IterParse, B, F: Fn(A) -> B, const N: usize>(&mut self, f: F) -> (r: Vec<B>)
        requires
            parse_many::<A>(old(self)@.0, old(self)@.1, N as nat).0.len() == N,
            accepts_values::<A, B, F>(f, parse_many::<A>(old(self)@.0, old(self)@.1, N as nat).0),
        ensures
            final(self)@.0 == old(self)@.0,
            final(self)@.1 == parse_many::<A>(old(self)@.0, old(self)@.1, N as nat).1,
            r@.len() == N,
            forall|i: int|
                0 <= i < N ==> #[trigger] maps_to::<A, B, F>(
                    f,
                    parse_many::<A>(old(self)@.0, old(self)@.1, N as nat).0[i],
                    r@[i],
                ),
    {
        let ghost s = self@.0;
        let ghost p0 = self@.1;
        let ghost all = parse_many::<A>(s, p0, N as nat).0;
        let mut out: Vec<B> = Vec::new();
        let mut k: usize = 0;
        while k < N
            invariant
                k <= N,
                self@.0 == s,
                old(self)@ == (s, p0),
                out@.len() == k,
                accepts_values::<A, B, F>(f, all),
                all.len() == N,
                all == parse_many::<A>(s, p0, N as nat).0,
                all.subrange(k as int, N as int) == parse_many::<A>(s, self@.1, (N - k) as nat).0,
                parse_many::<A>(s, p0, N as nat).1 == parse_many::<A>(s, self@.1, (N - k) as nat).1,
                forall|i: int| 0 <= i < k ==> #[trigger] maps_to::<A, B, F>(f, all[i], out@[i]),
            decreases N - k,
        {
            let ghost p = self@.1;
            proof {
                let rest = parse_many::<A>(s, p, (N - k) as nat).0;
                assert(rest.len() == N - k);
                if A::spec_parse(s, p).0 is None {
                    assert(rest.len() == 0);
                }
                assert(rest[0] == all[k as int]);
            }
            let a = self.read::<A>();
            let ghost ga = a;
            let b = f(a);
            proof {
                let rest = parse_many::<A>(s, p, (N - k) as nat).0;
                assert(A::spec_parse(s, p).0 == Some(ga@));
                assert(rest == seq![ga@] + parse_many::<A>(s, self@.1, (N - k - 1) as nat).0);
                assert(rest[0] == ga@);
                assert(ga@ == all[k as int]);
                assert(rest.drop_first() =~= parse_many::<A>(s, self@.1, (N - k - 1) as nat).0);
                assert(all.subrange(k + 1, N as int) =~= all.subrange(k as int, N as int).drop_first());
            }
            let ghost out0 = out@;
            out.push(b);
            proof {
                assert(maps_to::<A, B, F>(f, all[k as int], out@[k as int])) by {
                    assert(out@[k as int] == b);
                    assert(ga@ == all[k as int] && call_ensures(f, (ga,), b));
                }
                assert forall|i: int| 0 <= i < k + 1 implies #[trigger] maps_to::<A, B, F>(
                    f,
                    all[i],
                    out@[i],
                ) by {
                    if i < k {
                        assert(out@[i] == out0[i]);
                        assert(maps_to::<A, B, F>(f, all[i], out0[i]));
                    }
                }
            }
            k += 1;
        }
        out
    }
}

} // verus!
