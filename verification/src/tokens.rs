//! The lexical layer: splitting a byte buffer into separator-delimited
//! pieces, whitespace tokenization, and the typed token reader that every
//! entity decoder is built on.

use vstd::prelude::*;
use crate::error::DecodeError;

verus! {

/// The pieces of `s` cut at every occurrence of `sep`, empty pieces
/// included: splitting `"a,,b"` at `,` gives `["a", "", "b"]`.
pub open spec fn split_on(s: Seq<u8>, sep: u8) -> Seq<Seq<u8>>
    decreases s.len(),
{
    if s.len() == 0 {
        seq![Seq::<u8>::empty()]
    } else {
        let rest = split_on(s.drop_last(), sep);
        if s.last() == sep {
            rest + seq![Seq::<u8>::empty()]
        } else {
            rest.update(rest.len() - 1, rest.last().push(s.last()))
        }
    }
}

pub proof fn lemma_split_on_len(s: Seq<u8>, sep: u8)
    ensures
        split_on(s, sep).len() >= 1,
    decreases s.len(),
{
    if s.len() > 0 {
        lemma_split_on_len(s.drop_last(), sep);
    }
}

/// Cuts `s` at every occurrence of `sep`; empty pieces are kept, so the
/// result always holds at least one piece.
pub fn split_bytes(s: &[u8], sep: u8) -> (r: Vec<Vec<u8>>)
    ensures
        r@.map_values(|p: Vec<u8>| p@) == split_on(s@, sep),
{
    let mut done: Vec<Vec<u8>> = Vec::new();
    let mut cur: Vec<u8> = Vec::new();
    let mut i: usize = 0;
    while i < s.len()
        invariant
            i <= s.len(),
            done@.map_values(|p: Vec<u8>| p@).push(cur@) == split_on(s@.take(i as int), sep),
        decreases s.len() - i,
    {
        let b = s[i];
        proof {
            assert(s@.take(i + 1).drop_last() =~= s@.take(i as int));
            assert(s@.take(i + 1).last() == s@[i as int]);
        }
        if b == sep {
            done.push(cur);
            cur = Vec::new();
            proof {
                assert(done@.map_values(|p: Vec<u8>| p@).push(cur@)
                    =~= split_on(s@.take(i as int), sep) + seq![Seq::<u8>::empty()]);
            }
        } else {
            cur.push(b);
            proof {
                let prev = split_on(s@.take(i as int), sep);
                lemma_split_on_len(s@.take(i as int), sep);
                assert(done@.map_values(|p: Vec<u8>| p@).push(cur@)
                    =~= prev.update(prev.len() - 1, prev.last().push(s@[i as int])));
            }
        }
        i += 1;
    }
    proof {
        assert(s@.take(s@.len() as int) =~= s@);
    }
    done.push(cur);
    done
}

/// The non-empty pieces of `s` cut at `sep`: empty pieces from runs of
/// separators, or from a leading or trailing separator, are dropped.
pub open spec fn pieces(s: Seq<u8>, sep: u8) -> Seq<Seq<u8>> {
    split_on(s, sep).filter(|p: Seq<u8>| p.len() != 0)
}

/// The whitespace tokens of a frame body: the non-empty pieces cut at the
/// space character.
pub open spec fn tokens_of(s: Seq<u8>) -> Seq<Seq<u8>> {
    pieces(s, 32)
}

/// Cuts `s` at every occurrence of `sep` and drops the empty pieces.
pub fn split_pieces(s: &[u8], sep: u8) -> (r: Vec<Vec<u8>>)
    ensures
        r@.map_values(|p: Vec<u8>| p@) == pieces(s@, sep),
{
    let raw = split_bytes(s, sep);
    let mut out: Vec<Vec<u8>> = Vec::new();
    let mut i: usize = 0;
    while i < raw.len()
        invariant
            i <= raw.len(),
            raw@.map_values(|p: Vec<u8>| p@) == split_on(s@, sep),
            out@.map_values(|p: Vec<u8>| p@)
                == raw@.map_values(|p: Vec<u8>| p@).take(i as int).filter(|p: Seq<u8>| p.len() != 0),
        decreases raw.len() - i,
    {
        let keep = raw[i].len() != 0;
        proof {
            let m = raw@.map_values(|p: Vec<u8>| p@);
            assert(m.take(i + 1).drop_last() =~= m.take(i as int));
            assert(m.take(i + 1).last() == m[i as int]);
            reveal_with_fuel(Seq::filter, 2);
        }
        if keep {
            let piece = raw[i].clone();
            assert(piece@ == raw@.map_values(|p: Vec<u8>| p@)[i as int]);
            out.push(piece);
        }
        i += 1;
    }
    proof {
        let m = raw@.map_values(|p: Vec<u8>| p@);
        assert(m.take(m.len() as int) =~= m);
    }
    out
}

pub open spec fn is_digit(b: u8) -> bool {
    48 <= b <= 57
}

pub open spec fn all_digits(s: Seq<u8>) -> bool {
    forall|i: int| 0 <= i < s.len() ==> is_digit(#[trigger] s[i])
}

/// The decimal value of a digit string.
pub open spec fn digits_val(s: Seq<u8>) -> int
    decreases s.len(),
{
    if s.len() == 0 {
        0
    } else {
        digits_val(s.drop_last()) * 10 + (s.last() - 48)
    }
}

/// The token after its optional leading sign.
pub open spec fn int_body(s: Seq<u8>) -> Seq<u8> {
    if s.len() > 0 && (s[0] == 43 || s[0] == 45) {
        s.drop_first()
    } else {
        s
    }
}

pub open spec fn int_negative(s: Seq<u8>) -> bool {
    s.len() > 0 && s[0] == 45
}

/// An optional sign followed by at least one decimal digit.
pub open spec fn int_token_shape(s: Seq<u8>) -> bool {
    int_body(s).len() > 0 && all_digits(int_body(s))
}

/// The signed value of a well-shaped integer token.
pub open spec fn int_token_val(s: Seq<u8>) -> int {
    if int_negative(s) {
        -digits_val(int_body(s))
    } else {
        digits_val(int_body(s))
    }
}

/// A token that reads as an `i32`: well shaped and within range.
pub open spec fn is_i32_token(s: Seq<u8>) -> bool {
    int_token_shape(s) && -0x8000_0000 <= int_token_val(s) <= 0x7fff_ffff
}

proof fn lemma_digits_val_nonneg(s: Seq<u8>)
    requires
        all_digits(s),
    ensures
        digits_val(s) >= 0,
    decreases s.len(),
{
    if s.len() > 0 {
        assert(all_digits(s.drop_last())) by {
            assert(forall|i: int| 0 <= i < s.len() - 1 ==> s.drop_last()[i] == s[i]);
        }
        lemma_digits_val_nonneg(s.drop_last());
    }
}

/// Extending a digit string never decreases its value: a prefix that is
/// already out of range dooms the whole token.
proof fn lemma_digits_val_mono(s: Seq<u8>, i: int)
    requires
        all_digits(s),
        0 <= i <= s.len(),
    ensures
        digits_val(s) >= digits_val(s.take(i)),
    decreases s.len() - i,
{
    if i < s.len() {
        assert(all_digits(s.take(i + 1))) by {
            assert(forall|j: int| 0 <= j < i + 1 ==> s.take(i + 1)[j] == s[j]);
        }
        assert(s.take(i + 1).drop_last() =~= s.take(i));
        lemma_digits_val_nonneg(s.take(i));
        assert(digits_val(s.take(i + 1)) >= digits_val(s.take(i)));
        lemma_digits_val_mono(s, i + 1);
    } else {
        assert(s.take(i) =~= s);
    }
}

/// Reads an `i32` out of one token: an optional `+` or `-` sign, then
/// decimal digits, the value within range.
pub fn parse_i32_token(tok: &[u8]) -> (r: Option<i32>)
    ensures
        r is Some <==> is_i32_token(tok@),
        r matches Some(v) ==> v == int_token_val(tok@),
{
    let ghost body = int_body(tok@);
    let mut start: usize = 0;
    let mut neg = false;
    if tok.len() > 0 && (tok[0] == 43 || tok[0] == 45) {
        start = 1;
        neg = tok[0] == 45;
    }
    proof {
        assert(body =~= tok@.skip(start as int));
        assert(neg == int_negative(tok@));
    }
    if start >= tok.len() {
        return None;
    }
    let mut acc: u64 = 0;
    let mut j: usize = start;
    while j < tok.len()
        invariant
            start <= j <= tok.len(),
            start < tok.len(),
            body == tok@.skip(start as int),
            body == int_body(tok@),
            neg == int_negative(tok@),
            all_digits(body.take(j - start)),
            acc == digits_val(body.take(j - start)),
            acc <= 0x8000_0000,
        decreases tok.len() - j,
    {
        let b = tok[j];
        if b < 48 || b > 57 {
            proof {
                assert(body[j - start] == tok@[j as int]);
                assert(!is_digit(body[j - start]));
                assert(!all_digits(body));
                assert(!is_i32_token(tok@));
            }
            return None;
        }
        proof {
            assert(body.take(j - start + 1).drop_last() =~= body.take(j - start));
            assert(body.take(j - start + 1).last() == tok@[j as int]);
            assert(all_digits(body.take(j - start + 1))) by {
                let p = body.take(j - start + 1);
                assert(forall|k: int| 0 <= k < p.len() - 1 ==> p[k] == body.take(j - start)[k]);
            }
        }
        acc = acc * 10 + ((b - 48) as u64);
        if acc > 0x8000_0000 {
            proof {
                assert(acc == digits_val(body.take(j - start + 1)));
                if all_digits(body) {
                    lemma_digits_val_mono(body, j - start + 1);
                    assert(digits_val(body) > 0x8000_0000);
                }
                assert(!is_i32_token(tok@));
            }
            return None;
        }
        j += 1;
    }
    proof {
        assert(body.take(tok@.len() - start) =~= body);
        assert(int_token_shape(tok@));
    }
    if neg {
        Some((-(acc as i64)) as i32)
    } else {
        if acc > 0x7fff_ffff {
            proof {
                assert(int_token_val(tok@) == digits_val(body));
            }
            None
        } else {
            Some(acc as i32)
        }
    }
}

/// A cursor over the tokens of one frame body.  The view is the sequence of
/// tokens not yet consumed; the cursor advances monotonically and never
/// rewinds.
pub struct TokenReader {
    toks: Vec<Vec<u8>>,
    pos: usize,
}

impl View for TokenReader {
    type V = Seq<Seq<u8>>;

    closed spec fn view(&self) -> Seq<Seq<u8>> {
        if self.pos <= self.toks.len() {
            self.toks@.map_values(|t: Vec<u8>| t@).skip(self.pos as int)
        } else {
            Seq::empty()
        }
    }
}

impl TokenReader {
    pub fn new(toks: Vec<Vec<u8>>) -> (r: TokenReader)
        ensures
            r@ == toks@.map_values(|t: Vec<u8>| t@),
    {
        let r = TokenReader { toks, pos: 0 };
        proof {
            assert(r@ =~= r.toks@.map_values(|t: Vec<u8>| t@));
        }
        r
    }

    /// Tokenizes the given bytes at whitespace.
    pub fn over(body: &[u8]) -> (r: TokenReader)
        ensures
            r@ == tokens_of(body@),
    {
        TokenReader::new(split_pieces(body, 32))
    }

    /// Hands out the next token and advances past it; `None` at the end of
    /// the input.
    pub fn next_token(&mut self) -> (r: Option<Vec<u8>>)
        ensures
            old(self)@.len() == 0 ==> r is None && final(self)@ == old(self)@,
            old(self)@.len() > 0 ==> (r matches Some(t) && t@ == old(self)@[0]
                && final(self)@ == old(self)@.drop_first()),
    {
        if self.pos < self.toks.len() {
            let t = self.toks[self.pos].clone();
            assert(t@ == self.toks@.map_values(|t: Vec<u8>| t@)[self.pos as int]);
            self.pos += 1;
            proof {
                assert(self@ =~= old(self)@.drop_first());
            }
            Some(t)
        } else {
            None
        }
    }
}

pub open spec fn to_lower(b: u8) -> u8 {
    if 65 <= b <= 90 {
        (b + 32) as u8
    } else {
        b
    }
}

/// `s` spells `w` up to ASCII case.
pub open spec fn lower_eq(s: Seq<u8>, w: Seq<u8>) -> bool {
    s.len() == w.len() && forall|i: int| 0 <= i < s.len() ==> to_lower(#[trigger] s[i]) == w[i]
}

/// The infinity and not-a-number spellings a float token may use, compared
/// case-insensitively.
pub open spec fn is_inf_nan(s: Seq<u8>) -> bool {
    ||| lower_eq(s, seq![105u8, 110, 102])
    ||| lower_eq(s, seq![105u8, 110, 102, 105, 110, 105, 116, 121])
    ||| lower_eq(s, seq![110u8, 97, 110])
}

/// One step of the float-number automaton.  States: 0 nothing read yet,
/// 1 integer digits, 2 a lone dot, 3 digits after the dot (or a trailing
/// dot after integer digits), 4 just after the exponent mark, 5 after the
/// exponent's sign, 6 exponent digits, 7 rejected.
pub open spec fn float_step(st: u8, b: u8) -> u8 {
    if st == 0 {
        if is_digit(b) { 1 } else if b == 46 { 2 } else { 7 }
    } else if st == 1 {
        if is_digit(b) { 1 } else if b == 46 { 3 } else if b == 101 || b == 69 { 4 } else { 7 }
    } else if st == 2 {
        if is_digit(b) { 3 } else { 7 }
    } else if st == 3 {
        if is_digit(b) { 3 } else if b == 101 || b == 69 { 4 } else { 7 }
    } else if st == 4 {
        if is_digit(b) { 6 } else if b == 43 || b == 45 { 5 } else { 7 }
    } else if st == 5 {
        if is_digit(b) { 6 } else { 7 }
    } else if st == 6 {
        if is_digit(b) { 6 } else { 7 }
    } else {
        7
    }
}

pub open spec fn float_run(st: u8, s: Seq<u8>) -> u8
    decreases s.len(),
{
    if s.len() == 0 {
        st
    } else {
        float_run(float_step(st, s[0]), s.drop_first())
    }
}

pub open spec fn float_accepting(st: u8) -> bool {
    st == 1 || st == 3 || st == 6
}

/// A decimal number: digits around at most one dot, at least one digit in
/// the mantissa, then an optional exponent of `e` or `E`, an optional sign
/// and at least one digit.
pub open spec fn is_number(s: Seq<u8>) -> bool {
    float_accepting(float_run(0, s))
}

/// A token that reads as a floating-point number: an optional sign, then a
/// decimal number or one of the infinity and not-a-number spellings.
pub open spec fn is_float_token(s: Seq<u8>) -> bool {
    is_inf_nan(int_body(s)) || is_number(int_body(s))
}

fn float_step_x(st: u8, b: u8) -> (r: u8)
    ensures
        r == float_step(st, b),
{
    let digit = 48 <= b && b <= 57;
    if st == 0 {
        if digit { 1 } else if b == 46 { 2 } else { 7 }
    } else if st == 1 {
        if digit { 1 } else if b == 46 { 3 } else if b == 101 || b == 69 { 4 } else { 7 }
    } else if st == 2 {
        if digit { 3 } else { 7 }
    } else if st == 3 {
        if digit { 3 } else if b == 101 || b == 69 { 4 } else { 7 }
    } else if st == 4 {
        if digit { 6 } else if b == 43 || b == 45 { 5 } else { 7 }
    } else if st == 5 {
        if digit { 6 } else { 7 }
    } else if st == 6 {
        if digit { 6 } else { 7 }
    } else {
        7
    }
}

/// Compares `tok` from `start` on with `w`, up to ASCII case.
fn eq_lower_from(tok: &[u8], start: usize, w: &[u8]) -> (r: bool)
    requires
        start <= tok.len(),
    ensures
        r == lower_eq(tok@.skip(start as int), w@),
{
    if tok.len() - start != w.len() {
        return false;
    }
    let mut j: usize = 0;
    while j < w.len()
        invariant
            0 <= j <= w.len(),
            start + w.len() == tok.len(),
            forall|k: int| 0 <= k < j ==> to_lower(#[trigger] tok@.skip(start as int)[k]) == w@[k],
        decreases w.len() - j,
    {
        let mut b = tok[start + j];
        if 65 <= b && b <= 90 {
            b = b + 32;
        }
        if b != w[j] {
            proof {
                assert(tok@.skip(start as int)[j as int] == tok@[start + j]);
            }
            return false;
        }
        proof {
            assert(tok@.skip(start as int)[j as int] == tok@[start + j]);
        }
        j += 1;
    }
    true
}

/// Decides whether one token reads as a floating-point number.
pub fn is_float_bytes(tok: &[u8]) -> (r: bool)
    ensures
        r == is_float_token(tok@),
{
    let ghost body = int_body(tok@);
    let mut start: usize = 0;
    if tok.len() > 0 && (tok[0] == 43 || tok[0] == 45) {
        start = 1;
    }
    proof {
        assert(body =~= tok@.skip(start as int));
    }
    let inf: [u8; 3] = [105, 110, 102];
    let infinity: [u8; 8] = [105, 110, 102, 105, 110, 105, 116, 121];
    let nan: [u8; 3] = [110, 97, 110];
    if eq_lower_from(tok, start, inf.as_slice()) || eq_lower_from(tok, start, infinity.as_slice())
        || eq_lower_from(tok, start, nan.as_slice()) {
        proof {
            assert(inf@ =~= seq![105u8, 110, 102]);
            assert(infinity@ =~= seq![105u8, 110, 102, 105, 110, 105, 116, 121]);
            assert(nan@ =~= seq![110u8, 97, 110]);
        }
        return true;
    }
    proof {
        assert(inf@ =~= seq![105u8, 110, 102]);
        assert(infinity@ =~= seq![105u8, 110, 102, 105, 110, 105, 116, 121]);
        assert(nan@ =~= seq![110u8, 97, 110]);
    }
    let mut st: u8 = 0;
    let mut j: usize = start;
    proof {
        assert(body.skip(0) =~= body);
    }
    while j < tok.len()
        invariant
            start <= j <= tok.len(),
            body == tok@.skip(start as int),
            float_run(0, body) == float_run(st, body.skip(j - start)),
        decreases tok.len() - j,
    {
        proof {
            let rem = body.skip(j - start);
            assert(rem[0] == tok@[j as int]);
            assert(rem.drop_first() =~= body.skip(j - start + 1));
        }
        st = float_step_x(st, tok[j]);
        j += 1;
    }
    proof {
        assert(body.skip(tok@.len() - start) =~= Seq::<u8>::empty());
    }
    st == 1 || st == 3 || st == 6
}

/// What reading one float does to a token stream: the stream must hold a
/// token that reads as a floating-point number, and then loses it.  The
/// token itself is handed back verbatim: the frame record keeps the wire
/// spelling of its velocity fields.
pub open spec fn dec_float(t: Seq<Seq<u8>>) -> Result<(Seq<u8>, Seq<Seq<u8>>), DecodeError> {
    if t.len() == 0 {
        Err(DecodeError::UnexpectedEof)
    } else if !is_float_token(t[0]) {
        Err(DecodeError::NotAFloat)
    } else {
        Ok((t[0], t.drop_first()))
    }
}

/// Reads the next token as a floating-point number, handing the token back
/// in its wire spelling.
pub fn read_float(r: &mut TokenReader) -> (res: Result<Vec<u8>, DecodeError>)
    ensures
        match res {
            Ok(v) => dec_float(old(r)@) == Ok::<(Seq<u8>, Seq<Seq<u8>>), DecodeError>((
                v@,
                final(r)@,
            )),
            Err(e) => dec_float(old(r)@) == Err::<(Seq<u8>, Seq<Seq<u8>>), DecodeError>(e),
        },
{
    match r.next_token() {
        None => Err(DecodeError::UnexpectedEof),
        Some(t) => {
            if is_float_bytes(t.as_slice()) {
                Ok(t)
            } else {
                Err(DecodeError::NotAFloat)
            }
        },
    }
}

/// What reading one integer does to a token stream: the stream must hold a
/// token, the token must read as an `i32`, and the stream then loses it.
pub open spec fn dec_int(t: Seq<Seq<u8>>) -> Result<(i32, Seq<Seq<u8>>), DecodeError> {
    if t.len() == 0 {
        Err(DecodeError::UnexpectedEof)
    } else if !is_i32_token(t[0]) {
        Err(DecodeError::NotAnInteger)
    } else {
        Ok((int_token_val(t[0]) as i32, t.drop_first()))
    }
}

/// Reads the next token as an `i32`.
pub fn read_int(r: &mut TokenReader) -> (res: Result<i32, DecodeError>)
    ensures
        match res {
            Ok(v) => dec_int(old(r)@) == Ok::<(i32, Seq<Seq<u8>>), DecodeError>((v, final(r)@)),
            Err(e) => dec_int(old(r)@) == Err::<(i32, Seq<Seq<u8>>), DecodeError>(e),
        },
{
    match r.next_token() {
        None => Err(DecodeError::UnexpectedEof),
        Some(t) => match parse_i32_token(t.as_slice()) {
            None => Err(DecodeError::NotAnInteger),
            Some(v) => Ok(v),
        },
    }
}

} // verus!
