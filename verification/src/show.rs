//! Token ids as text, and back: what `--ids` prints and `tok decode` reads,
//! and the pieces `--show` colours.

use vstd::prelude::*;
use vstd::utf8::valid_utf8;
use crate::text::{decimal, digit_char, push_char, push_decimal, push_chars, chars_of, lemma_decimal_digits};
use crate::count::{lossy_utf8, utf8_lossy};
use crate::encoding::{DecodeError, Encoder, decoded, token_bytes, invalid_token_message};

verus! {

/// The ids in decimal, separated by single spaces.
pub open spec fn ids_text_spec(ids: Seq<u32>) -> Seq<char>
    decreases ids.len(),
{
    if ids.len() == 0 {
        Seq::empty()
    } else if ids.len() == 1 {
        decimal(ids[0] as nat)
    } else {
        ids_text_spec(ids.drop_last()) + seq![' '] + decimal(ids.last() as nat)
    }
}

/// The ids in decimal, separated by single spaces.
pub fn ids_text(ids: &[u32]) -> (res: String)
    ensures
        res@ == ids_text_spec(ids@),
{
    let mut out = String::new();
    let mut i: usize = 0;
    while i < ids.len()
        invariant
            i <= ids@.len(),
            out@ == ids_text_spec(ids@.take(i as int)),
        decreases ids@.len() - i,
    {
        assert(ids@.take(i + 1).drop_last() =~= ids@.take(i as int));
        if i > 0 {
            push_char(&mut out, ' ');
        }
        push_decimal(&mut out, ids[i] as u64);
        proof {
            if i == 0 {
                assert(out@ =~= ids_text_spec(ids@.take(1)));
            }
        }
        i = i + 1;
    }
    assert(ids@.take(ids@.len() as int) =~= ids@);
    out
}

/// Characters that separate token ids: ASCII whitespace and commas.
pub open spec fn is_separator(c: char) -> bool {
    c == ' ' || c == '\t' || c == '\n' || c == '\r' || c == ','
}

/// Index of the first separator in `s` (its length when there is none).
pub open spec fn first_separator(s: Seq<char>) -> int
    decreases s.len(),
{
    if s.len() == 0 {
        0
    } else if is_separator(s[0]) {
        0
    } else {
        1 + first_separator(s.drop_first())
    }
}

/// `first_separator` points at a separator (or the end) with none before it.
pub proof fn lemma_first_separator(s: Seq<char>)
    ensures
        0 <= first_separator(s) <= s.len(),
        first_separator(s) < s.len() ==> is_separator(s[first_separator(s)]),
        forall|j: int| 0 <= j < first_separator(s) ==> !is_separator(#[trigger] s[j]),
    decreases s.len(),
{
    if s.len() > 0 && !is_separator(s[0]) {
        lemma_first_separator(s.drop_first());
        assert forall|j: int| 0 <= j < first_separator(s) implies !is_separator(#[trigger] s[j]) by {
            if j > 0 {
                assert(s[j] == s.drop_first()[j - 1]);
            }
        }
    }
}

proof fn lemma_first_separator_at(s: Seq<char>, k: int)
    requires
        0 <= k <= s.len(),
        k < s.len() ==> is_separator(s[k]),
        forall|j: int| 0 <= j < k ==> !is_separator(#[trigger] s[j]),
    ensures
        first_separator(s) == k,
    decreases s.len(),
{
    if s.len() > 0 && k > 0 {
        assert forall|j: int| 0 <= j < k - 1 implies !is_separator(#[trigger] s.drop_first()[j]) by {
            assert(s.drop_first()[j] == s[j + 1]);
        }
        lemma_first_separator_at(s.drop_first(), k - 1);
    }
}

/// The non-empty runs of non-separator characters, in order.
pub open spec fn id_pieces(s: Seq<char>) -> Seq<Seq<char>>
    decreases s.len(),
{
    if s.len() == 0 {
        Seq::empty()
    } else {
        let k = first_separator(s);
        proof {
            lemma_first_separator(s);
        }
        let rest = if k < s.len() {
            id_pieces(s.skip(k + 1))
        } else {
            Seq::empty()
        };
        if k == 0 {
            rest
        } else {
            seq![s.take(k)] + rest
        }
    }
}

/// The number a run of decimal digits spells, or `None` when some character
/// is not a digit.
pub open spec fn digits_value(p: Seq<char>) -> Option<nat>
    decreases p.len(),
{
    if p.len() == 0 {
        Some(0)
    } else {
        let c = p.last();
        if '0' <= c && c <= '9' {
            match digits_value(p.drop_last()) {
                Some(v) => Some(10 * v + ((c as u32) - 48) as nat),
                None => None,
            }
        } else {
            None
        }
    }
}

/// The token id a piece spells, when it is a decimal number that fits in 32 bits.
pub open spec fn piece_id(p: Seq<char>) -> Option<u32> {
    match digits_value(p) {
        Some(v) => if v <= u32::MAX {
            Some(v as u32)
        } else {
            None
        },
        None => None,
    }
}

/// The ids of a list of pieces, or the first piece that is not an id.
pub open spec fn ids_of_pieces(ps: Seq<Seq<char>>) -> Result<Seq<u32>, Seq<char>>
    decreases ps.len(),
{
    if ps.len() == 0 {
        Ok(Seq::empty())
    } else {
        match piece_id(ps[0]) {
            None => Err(ps[0]),
            Some(id) => match ids_of_pieces(ps.drop_first()) {
                Ok(rest) => Ok(seq![id] + rest),
                Err(bad) => Err(bad),
            },
        }
    }
}

/// All the pieces of a list of arguments, argument by argument.
pub open spec fn pieces_of_args(args: Seq<Seq<char>>) -> Seq<Seq<char>>
    decreases args.len(),
{
    if args.len() == 0 {
        Seq::empty()
    } else {
        pieces_of_args(args.drop_last()) + id_pieces(args.last())
    }
}

/// The message for something that is not a token id.
pub open spec fn bad_id_message(piece: Seq<char>) -> Seq<char> {
    "invalid token id `"@ + piece + "`"@
}

/// Parses one piece (a run of non-separator characters).
fn parse_piece(p: &Vec<char>) -> (res: Option<u32>)
    ensures
        res == piece_id(p@),
{
    let mut v: u64 = 0;
    let mut i: usize = 0;
    while i < p.len()
        invariant
            i <= p@.len(),
            digits_value(p@.take(i as int)) == Some(v as nat),
            v <= u32::MAX,
        decreases p@.len() - i,
    {
        let c = p[i];
        assert(p@.take(i + 1).drop_last() =~= p@.take(i as int));
        assert(p@.take(i + 1).last() == c);
        if !('0' <= c && c <= '9') {
            proof {
                lemma_digits_none_extends(p@, i + 1);
            }
            return None;
        }
        let d = (c as u32 - 48) as u64;
        let next = v * 10 + d;
        if next > 0xffff_ffff {
            proof {
                lemma_digits_too_big(p@, i + 1, next as nat);
            }
            return None;
        }
        v = next;
        i = i + 1;
    }
    assert(p@.take(p@.len() as int) =~= p@);
    Some(v as u32)
}

proof fn lemma_digits_none_extends(p: Seq<char>, k: int)
    requires
        0 <= k <= p.len(),
        digits_value(p.take(k)) is None,
    ensures
        digits_value(p) is None,
    decreases p.len(),
{
    if k < p.len() {
        assert(p.drop_last().take(k) =~= p.take(k));
        lemma_digits_none_extends(p.drop_last(), k);
    } else {
        assert(p.take(k) =~= p);
    }
}

proof fn lemma_digits_too_big(p: Seq<char>, k: int, v: nat)
    requires
        0 <= k <= p.len(),
        digits_value(p.take(k)) == Some(v),
        v > u32::MAX,
    ensures
        piece_id(p) is None,
    decreases p.len(),
{
    if k < p.len() {
        assert(p.drop_last().take(k) =~= p.take(k));
        lemma_digits_too_big(p.drop_last(), k, v);
        match digits_value(p.drop_last()) {
            Some(w) => {
                assert(w > u32::MAX);
            },
            None => {},
        }
    } else {
        assert(p.take(k) =~= p);
    }
}

/// The token ids in some arguments: each argument is split at whitespace and
/// commas, and every piece must be a decimal number that fits in 32 bits.
/// Fails with a message naming the first piece that is not.
pub fn parse_token_ids(args: &[String]) -> (res: Result<Vec<u32>, String>)
    ensures
        match ids_of_pieces(pieces_of_args(args@.map_values(|s: String| s@))) {
            Ok(ids) => res matches Ok(v) && v@ == ids,
            Err(bad) => res matches Err(msg) && msg@ == bad_id_message(bad),
        },
{
    let ghost views = args@.map_values(|s: String| s@);
    let mut pieces: Vec<Vec<char>> = Vec::new();
    let mut a: usize = 0;
    while a < args.len()
        invariant
            a <= args@.len(),
            views == args@.map_values(|s: String| s@),
            pieces@.map_values(|p: Vec<char>| p@) == pieces_of_args(views.take(a as int)),
        decreases args@.len() - a,
    {
        let cs = chars_of(args[a].as_str());
        let ghost before = pieces@.map_values(|p: Vec<char>| p@);
        let mut st: usize = 0;
        let mut i: usize = 0;
        let ghost s = cs@;
        assert(s.skip(0) =~= s);
        while i < cs.len()
            invariant
                st <= i <= cs@.len(),
                s == cs@,
                forall|j: int| st <= j < i ==> !is_separator(#[trigger] s[j]),
                before + id_pieces(s) == pieces@.map_values(|p: Vec<char>| p@) + id_pieces(
                    s.skip(st as int),
                ),
            decreases cs@.len() - i,
        {
            if is_sep(cs[i]) {
                let ghost t = s.skip(st as int);
                proof {
                    assert forall|j: int| 0 <= j < i - st implies !is_separator(#[trigger] t[j]) by {
                        assert(t[j] == s[st + j]);
                    }
                    lemma_first_separator_at(t, i - st);
                    assert(t.skip(i - st + 1) =~= s.skip(i + 1));
                }
                if i > st {
                    let mut piece: Vec<char> = Vec::new();
                    let mut k = st;
                    while k < i
                        invariant
                            st <= k <= i <= cs@.len(),
                            piece@ == cs@.subrange(st as int, k as int),
                        decreases i - k,
                    {
                        assert(cs@.subrange(st as int, k + 1) =~= cs@.subrange(st as int, k as int).push(
                            cs@[k as int],
                        ));
                        piece.push(cs[k]);
                        k = k + 1;
                    }
                    assert(piece@ =~= t.take(i - st));
                    let ghost old_p = pieces@.map_values(|p: Vec<char>| p@);
                    pieces.push(piece);
                    assert(pieces@.map_values(|p: Vec<char>| p@) =~= old_p.push(t.take(i - st)));
                    assert(id_pieces(t) =~= seq![t.take(i - st)] + id_pieces(s.skip(i + 1)));
                } else {
                    assert(id_pieces(t) =~= id_pieces(s.skip(i + 1)));
                }
                st = i + 1;
            }
            i = i + 1;
        }
        // The last piece runs to the end of the argument.
        let ghost t = s.skip(st as int);
        proof {
            assert forall|j: int| 0 <= j < t.len() implies !is_separator(#[trigger] t[j]) by {
                assert(t[j] == s[st + j]);
            }
            lemma_first_separator_at(t, t.len() as int);
        }
        if st < cs.len() {
            let mut piece: Vec<char> = Vec::new();
            let mut k = st;
            while k < cs.len()
                invariant
                    st <= k <= cs@.len(),
                    piece@ == cs@.subrange(st as int, k as int),
                decreases cs@.len() - k,
            {
                assert(cs@.subrange(st as int, k + 1) =~= cs@.subrange(st as int, k as int).push(
                    cs@[k as int],
                ));
                piece.push(cs[k]);
                k = k + 1;
            }
            assert(piece@ =~= t);
            assert(t.take(t.len() as int) =~= t);
            assert(id_pieces(t) =~= seq![t]);
            let ghost old_p = pieces@.map_values(|p: Vec<char>| p@);
            pieces.push(piece);
            assert(pieces@.map_values(|p: Vec<char>| p@) =~= old_p.push(t));
        } else {
            assert(t.len() == 0);
        }
        proof {
            assert(views.take(a + 1).drop_last() =~= views.take(a as int));
            assert(views[a as int] == s);
            assert(pieces_of_args(views.take(a + 1)) == pieces_of_args(views.take(a as int))
                + id_pieces(s));
        }
        a = a + 1;
    }
    assert(views.take(args@.len() as int) =~= views);
    let ghost ps = pieces@.map_values(|p: Vec<char>| p@);
    let mut ids: Vec<u32> = Vec::new();
    let mut j: usize = 0;
    assert(ps.skip(0) =~= ps);
    while j < pieces.len()
        invariant
            j <= pieces@.len(),
            ps == pieces@.map_values(|p: Vec<char>| p@),
            ps == pieces_of_args(views),
            views == args@.map_values(|s: String| s@),
            ids_of_pieces(ps) == match ids_of_pieces(ps.skip(j as int)) {
                Ok(rest) => Ok(ids@ + rest),
                Err(bad) => Err(bad),
            },
        decreases pieces@.len() - j,
    {
        let ghost tail = ps.skip(j as int);
        assert(tail[0] == pieces@[j as int]@);
        assert(tail.drop_first() =~= ps.skip(j + 1));
        match parse_piece(&pieces[j]) {
            None => {
                let mut msg = String::new();
                crate::text::push_str(&mut msg, "invalid token id `");
                push_chars(&mut msg, pieces[j].as_slice());
                crate::text::push_str(&mut msg, "`");
                assert(ids_of_pieces(tail) == Err::<Seq<u32>, Seq<char>>(tail[0]));
                assert(msg@ =~= bad_id_message(tail[0]));
                assert(ids_of_pieces(ps) == Err::<Seq<u32>, Seq<char>>(tail[0]));
                assert(views == args@.map_values(|s: String| s@));
                return Err(msg);
            },
            Some(id) => {
                proof {
                    match ids_of_pieces(ps.skip(j + 1)) {
                        Ok(rest) => {
                            assert(ids@.push(id) + rest =~= ids@ + (seq![id] + rest));
                        },
                        Err(_) => {},
                    }
                }
                ids.push(id);
            },
        }
        j = j + 1;
    }
    proof {
        assert(ps.skip(pieces@.len() as int).len() == 0);
        assert(ids@ + Seq::<u32>::empty() =~= ids@);
    }
    Ok(ids)
}

/// What `tok decode` prints for some arguments: the ids they spell, decoded
/// and read as (lossy) UTF-8; or the message for the first piece that is not
/// an id, or for the first id the vocabulary lacks.
pub fn decode_ids(enc: &Encoder, args: &[String]) -> (res: Result<String, String>)
    ensures
        match ids_of_pieces(pieces_of_args(args@.map_values(|s: String| s@))) {
            Err(bad) => res matches Err(msg) && msg@ == bad_id_message(bad),
            Ok(ids) => match decoded(enc@.encoding, ids) {
                Ok(bytes) => res matches Ok(text) && text@ == lossy_utf8(bytes),
                Err(t) => res matches Err(msg) && msg@ == invalid_token_message(t),
            },
        },
{
    let ids = match parse_token_ids(args) {
        Ok(ids) => ids,
        Err(msg) => return Err(msg),
    };
    match enc.decode(ids.as_slice()) {
        Ok(bytes) => Ok(utf8_lossy(bytes.as_slice())),
        Err(e) => Err(e.message()),
    }
}

/// The bytes of each token on its own, as `--show` colours them; or the
/// first token the vocabulary lacks.
pub fn token_pieces(enc: &Encoder, ids: &[u32]) -> (res: Result<Vec<Vec<u8>>, DecodeError>)
    ensures
        match res {
            Ok(pieces) => pieces@.len() == ids@.len() && forall|k: int|
                0 <= k < ids@.len() ==> token_bytes(enc@.encoding, ids@[k]) == Some(
                    (#[trigger] pieces@[k])@,
                ),
            Err(e) => exists|k: int|
                0 <= k < ids@.len() && ids@[k] == e.token && token_bytes(enc@.encoding, ids@[k])
                    is None && forall|j: int|
                    0 <= j < k ==> #[trigger] token_bytes(enc@.encoding, ids@[j]) is Some,
        },
{
    let mut pieces: Vec<Vec<u8>> = Vec::new();
    let mut i: usize = 0;
    while i < ids.len()
        invariant
            i <= ids@.len(),
            pieces@.len() == i,
            forall|k: int|
                0 <= k < i ==> token_bytes(enc@.encoding, ids@[k]) == Some(
                    (#[trigger] pieces@[k])@,
                ),
        decreases ids@.len() - i,
    {
        let one = [ids[i]];
        let ghost single = seq![ids@[i as int]];
        assert(one@ =~= single);
        assert(single.drop_first() =~= Seq::<u32>::empty());
        assert(decoded(enc@.encoding, Seq::<u32>::empty()) == Ok::<Seq<u8>, u32>(Seq::empty()));
        assert(single[0] == ids@[i as int]);
        match enc.decode(&one) {
            Ok(bytes) => {
                proof {
                    let b = token_bytes(enc@.encoding, ids@[i as int]).unwrap();
                    assert(b + Seq::<u8>::empty() =~= b);
                }
                pieces.push(bytes);
            },
            Err(e) => {
                assert forall|j: int| 0 <= j < i implies #[trigger] token_bytes(
                    enc@.encoding,
                    ids@[j],
                ) is Some by {
                    assert(token_bytes(enc@.encoding, ids@[j]) == Some(pieces@[j]@));
                }
                assert(e.token == ids@[i as int]);
                assert(token_bytes(enc@.encoding, ids@[i as int]) is None);
                return Err(e);
            },
        }
        i = i + 1;
    }
    Ok(pieces)
}

fn is_sep(c: char) -> (res: bool)
    ensures
        res == is_separator(c),
{
    c == ' ' || c == '\t' || c == '\n' || c == '\r' || c == ','
}

/// Calls `std::str::from_utf8` and reports whether it succeeded. Trusted: that
/// happens exactly for valid UTF-8.
#[verifier::external_body]
fn is_valid_utf8(bytes: &[u8]) -> (res: bool)
    ensures
        res == valid_utf8(bytes@),
{
    std::str::from_utf8(bytes).is_ok()
}

pub open spec fn byte_views(v: Seq<Vec<u8>>) -> Seq<Seq<u8>> {
    v.map_values(|b: Vec<u8>| b@)
}

/// The runs made so far and the pending bytes after some tokens: each token's
/// bytes are appended to the pending ones, and once those form non-empty valid
/// UTF-8 they close a run.
pub open spec fn run_state(pieces: Seq<Seq<u8>>) -> (Seq<Seq<u8>>, Seq<u8>)
    decreases pieces.len(),
{
    if pieces.len() == 0 {
        (Seq::empty(), Seq::empty())
    } else {
        let before = run_state(pieces.drop_last());
        let joined = before.1 + pieces.last();
        if joined.len() > 0 && valid_utf8(joined) {
            (before.0.push(joined), Seq::empty())
        } else {
            (before.0, joined)
        }
    }
}

/// The runs `--show` colours: consecutive tokens joined up to the first token
/// end where they make non-empty valid UTF-8, and what is left at the end.
pub open spec fn runs_of(pieces: Seq<Seq<u8>>) -> Seq<Seq<u8>> {
    let st = run_state(pieces);
    if st.1.len() > 0 {
        st.0.push(st.1)
    } else {
        st.0
    }
}

/// The bytes of the tokens `a..b`, joined.
pub open spec fn joined(pieces: Seq<Seq<u8>>, a: int, b: int) -> Seq<u8> {
    pieces.subrange(a, b).flatten()
}

/// Bytes that cannot end a run: nothing at all, or not valid UTF-8.
pub open spec fn no_run_end(bytes: Seq<u8>) -> bool {
    bytes.len() == 0 || !valid_utf8(bytes)
}

/// Where the completed runs start, and where the pending bytes start.
spec fn run_cuts(pieces: Seq<Seq<u8>>) -> (Seq<int>, int)
    decreases pieces.len(),
{
    if pieces.len() == 0 {
        (seq![0], 0)
    } else {
        let before = run_cuts(pieces.drop_last());
        let st = run_state(pieces.drop_last());
        let j = st.1 + pieces.last();
        if j.len() > 0 && valid_utf8(j) {
            (before.0.push(pieces.len() as int), pieces.len() as int)
        } else {
            before
        }
    }
}

proof fn lemma_joined_push(pieces: Seq<Seq<u8>>, a: int, b: int)
    requires
        0 <= a <= b < pieces.len(),
    ensures
        joined(pieces, a, b + 1) == joined(pieces, a, b) + pieces[b],
{
    assert(pieces.subrange(a, b + 1) =~= pieces.subrange(a, b).push(pieces[b]));
    pieces.subrange(a, b).lemma_flatten_push(pieces[b]);
}

proof fn lemma_joined_prefix(pieces: Seq<Seq<u8>>, a: int, b: int)
    requires
        0 <= a <= b < pieces.len(),
    ensures
        joined(pieces.drop_last(), a, b) == joined(pieces, a, b),
{
    assert(pieces.drop_last().subrange(a, b) =~= pieces.subrange(a, b));
}

proof fn lemma_run_cuts(pieces: Seq<Seq<u8>>)
    ensures
        ({
            let st = run_state(pieces);
            let cs = run_cuts(pieces).0;
            let c = run_cuts(pieces).1;
            &&& cs.len() == st.0.len() + 1
            &&& cs[0] == 0
            &&& cs[cs.len() - 1] == c
            &&& 0 <= c <= pieces.len()
            &&& forall|k: int| 0 <= k < cs.len() ==> 0 <= #[trigger] cs[k] <= c
            &&& forall|k: int| 0 <= k < st.0.len() ==> #[trigger] cs[k] < cs[k + 1]
            &&& forall|k: int|
                0 <= k < st.0.len() ==> #[trigger] st.0[k] == joined(
                    pieces,
                    cs[k],
                    cs[k + 1],
                ) && st.0[k].len() > 0 && valid_utf8(st.0[k])
            &&& forall|k: int, j: int|
                0 <= k < st.0.len() && cs[k] < j < cs[k + 1] ==> #[trigger] no_run_end(
                    joined(pieces, #[trigger] cs[k], j),
                )
            &&& st.1 == joined(pieces, c, pieces.len() as int)
            &&& forall|j: int| c < j <= pieces.len() ==> #[trigger] no_run_end(joined(pieces, c, j))
        }),
    decreases pieces.len(),
{
    if pieces.len() == 0 {
        assert(pieces.subrange(0, 0) =~= Seq::<Seq<u8>>::empty());
    } else {
        let q = pieces.drop_last();
        let n = pieces.len() as int;
        lemma_run_cuts(q);
        let st0 = run_state(q);
        let cs0 = run_cuts(q).0;
        let c = run_cuts(q).1;
        lemma_joined_push(pieces, c, n - 1);
        lemma_joined_prefix(pieces, c, n - 1);
        assert forall|a: int, b: int| 0 <= a <= b <= n - 1 implies joined(q, a, b) == joined(
            pieces,
            a,
            b,
        ) by {
            lemma_joined_prefix(pieces, a, b);
        }
        let st = run_state(pieces);
        let cs = run_cuts(pieces).0;
        let j0 = st0.1 + pieces.last();
        assert(j0 == joined(pieces, c, n));
        if j0.len() > 0 && valid_utf8(j0) {
            assert(st.0 == st0.0.push(j0) && st.1 == Seq::<u8>::empty());
            assert(cs == cs0.push(n) && run_cuts(pieces).1 == n);
            assert forall|k: int| 0 <= k < cs.len() implies 0 <= #[trigger] cs[k] <= n by {
                if k < cs0.len() {
                    assert(cs[k] == cs0[k]);
                }
            }
            assert forall|k: int| 0 <= k < st.0.len() implies #[trigger] cs[k] < cs[k + 1] by {
                if k < st0.0.len() {
                    assert(cs[k] == cs0[k] && cs[k + 1] == cs0[k + 1]);
                    assert(cs0[k] < cs0[k + 1]);
                } else {
                    assert(cs[k] == c && cs[k + 1] == n);
                }
            }
            assert(c < n) by {
                if c == n {
                    assert(pieces.subrange(n, n) =~= Seq::<Seq<u8>>::empty());
                }
            }
            assert forall|k: int|
                0 <= k < st.0.len() implies cs[k] < cs[k + 1] && #[trigger] st.0[k] == joined(
                pieces,
                cs[k],
                cs[k + 1],
            ) && st.0[k].len() > 0 && valid_utf8(st.0[k]) by {
                if k < st0.0.len() {
                    assert(st.0[k] == st0.0[k]);
                    assert(cs[k] == cs0[k] && cs[k + 1] == cs0[k + 1]);
                    lemma_joined_prefix(pieces, cs0[k], cs0[k + 1]);
                } else {
                    assert(cs[k] == c && cs[k + 1] == n);
                }
            }
            assert forall|k: int, j: int|
                0 <= k < st.0.len() && cs[k] < j < cs[k + 1] implies #[trigger] no_run_end(
                joined(pieces, #[trigger] cs[k], j),
            ) by {
                if k < st0.0.len() {
                    assert(cs[k] == cs0[k] && cs[k + 1] == cs0[k + 1]);
                    assert(no_run_end(joined(q, cs0[k], j)));
                    lemma_joined_prefix(pieces, cs0[k], j);
                } else {
                    assert(cs[k] == c);
                    assert(no_run_end(joined(q, c, j)));
                    lemma_joined_prefix(pieces, c, j);
                }
            }
            assert(pieces.subrange(n, n) =~= Seq::<Seq<u8>>::empty());
        } else {
            assert(st.0 == st0.0 && st.1 == j0);
            assert(cs == cs0 && run_cuts(pieces).1 == c);
            assert forall|j: int| c < j <= n implies #[trigger] no_run_end(joined(pieces, c, j)) by {
                if j < n {
                    assert(no_run_end(joined(q, c, j)));
                    lemma_joined_prefix(pieces, c, j);
                }
            }
            assert forall|k: int|
                0 <= k < st.0.len() implies cs[k] < cs[k + 1] && #[trigger] st.0[k] == joined(
                pieces,
                cs[k],
                cs[k + 1],
            ) && st.0[k].len() > 0 && valid_utf8(st.0[k]) by {
                assert(st.0[k] == st0.0[k]);
                lemma_joined_prefix(pieces, cs0[k], cs0[k + 1]);
            }
            assert forall|k: int, j: int|
                0 <= k < st.0.len() && cs[k] < j < cs[k + 1] implies #[trigger] no_run_end(
                joined(pieces, #[trigger] cs[k], j),
            ) by {
                assert(no_run_end(joined(q, cs0[k], j)));
                lemma_joined_prefix(pieces, cs0[k], j);
            }
        }
    }
}

/// `cuts` are where the `runs` of `pieces` start, and where the last ends: each
/// run is the joined bytes of the tokens between two cut points, no token end
/// inside a run would already have made a valid non-empty run, and only tokens
/// without bytes follow the last cut.
pub open spec fn cut_points(pieces: Seq<Seq<u8>>, runs: Seq<Seq<u8>>, cuts: Seq<int>) -> bool {
    &&& cuts.len() == runs.len() + 1
    &&& cuts[0] == 0
    &&& cuts[cuts.len() - 1] <= pieces.len()
    &&& joined(pieces, cuts[cuts.len() - 1], pieces.len() as int).len() == 0
    &&& forall|k: int|
        0 <= k < runs.len() ==> cuts[k] < cuts[k + 1] && #[trigger] runs[k] == joined(
            pieces,
            cuts[k],
            cuts[k + 1],
        )
    &&& forall|k: int, j: int|
        0 <= k < runs.len() && cuts[k] < j < cuts[k + 1] ==> #[trigger] no_run_end(
            joined(pieces, #[trigger] cuts[k], j),
        )
}

/// `--show` cuts the tokens into runs at the first token end where the bytes
/// since the previous cut are valid UTF-8, and nowhere else.
pub proof fn lemma_runs_cut_at_first_valid_end(pieces: Seq<Seq<u8>>)
    ensures
        exists|cuts: Seq<int>| #[trigger] cut_points(pieces, runs_of(pieces), cuts),
{
    lemma_run_cuts(pieces);
    let st = run_state(pieces);
    let cs = run_cuts(pieces).0;
    let c = run_cuts(pieces).1;
    let n = pieces.len() as int;
    let runs = runs_of(pieces);
    assert(forall|k: int| 0 <= k < st.0.len() ==> #[trigger] cs[k] < cs[k + 1]);
    if st.1.len() > 0 {
        let cuts = cs.push(n);
        assert(c < n) by {
            if c == n {
                assert(pieces.subrange(n, n) =~= Seq::<Seq<u8>>::empty());
            }
        }
        assert(pieces.subrange(n, n) =~= Seq::<Seq<u8>>::empty());
        assert forall|k: int|
            0 <= k < runs.len() implies cuts[k] < cuts[k + 1] && #[trigger] runs[k] == joined(
            pieces,
            cuts[k],
            cuts[k + 1],
        ) by {
            if k < st.0.len() {
                assert(runs[k] == st.0[k]);
            }
        }
        assert forall|k: int, j: int|
            0 <= k < runs.len() && cuts[k] < j < cuts[k + 1] implies #[trigger] no_run_end(
            joined(pieces, #[trigger] cuts[k], j),
        ) by {
            if k < st.0.len() {
                assert(cuts[k] == cs[k] && cuts[k + 1] == cs[k + 1]);
            } else {
                assert(cuts[k] == c);
            }
        }
        assert(cut_points(pieces, runs, cuts));
    } else {
        assert(cut_points(pieces, runs, cs));
    }
}

/// Joins the bytes of consecutive tokens into runs that are valid UTF-8 on
/// their own, so that `--show` never cuts a character in two. Every run but
/// the last is valid UTF-8 and ends where a token ends; together they hold
/// exactly the tokens' bytes.
pub fn utf8_runs(pieces: &[Vec<u8>]) -> (res: Vec<Vec<u8>>)
    ensures
        byte_views(res@) == runs_of(byte_views(pieces@)),
        byte_views(res@).flatten() == byte_views(pieces@).flatten(),
        forall|k: int| 0 <= k < res@.len() - 1 ==> valid_utf8(#[trigger] res@[k]@),
        forall|k: int| 0 <= k < res@.len() ==> (#[trigger] res@[k]@).len() > 0,
{
    broadcast use Seq::lemma_flatten_push;

    let mut runs: Vec<Vec<u8>> = Vec::new();
    let mut pending: Vec<u8> = Vec::new();
    let mut i: usize = 0;
    assert(byte_views(pieces@.take(0)) =~= Seq::<Seq<u8>>::empty());
    assert(byte_views(runs@) =~= Seq::<Seq<u8>>::empty());
    while i < pieces.len()
        invariant
            i <= pieces@.len(),
            byte_views(runs@).flatten() + pending@ == byte_views(pieces@.take(i as int)).flatten(),
            run_state(byte_views(pieces@.take(i as int))) == (byte_views(runs@), pending@),
            forall|k: int| 0 <= k < runs@.len() ==> valid_utf8(#[trigger] runs@[k]@),
            forall|k: int| 0 <= k < runs@.len() ==> (#[trigger] runs@[k]@).len() > 0,
        decreases pieces@.len() - i,
    {
        let ghost before = pending@;
        let piece = &pieces[i];
        let mut j: usize = 0;
        while j < piece.len()
            invariant
                j <= piece@.len(),
                pending@ == before + piece@.take(j as int),
            decreases piece@.len() - j,
        {
            pending.push(piece[j]);
            assert(piece@.take(j + 1) =~= piece@.take(j as int).push(piece@[j as int]));
            j = j + 1;
        }
        proof {
            assert(piece@.take(piece@.len() as int) =~= piece@);
            assert(byte_views(pieces@.take(i + 1)) =~= byte_views(pieces@.take(i as int)).push(
                piece@,
            ));
            assert(byte_views(pieces@.take(i + 1)).drop_last() =~= byte_views(
                pieces@.take(i as int),
            ));
        }
        let ghost flat_before = byte_views(runs@).flatten();
        assert(pending@ =~= before + piece@);
        proof {
            byte_views(pieces@.take(i as int)).lemma_flatten_push(piece@);
        }
        assert(byte_views(pieces@.take(i + 1)).flatten() =~= flat_before + before + piece@);
        if pending.len() > 0 && is_valid_utf8(pending.as_slice()) {
            let ghost old_runs = byte_views(runs@);
            runs.push(pending);
            pending = Vec::new();
            assert(byte_views(runs@) =~= old_runs.push(before + piece@));
            proof {
                old_runs.lemma_flatten_push(before + piece@);
            }
            assert(byte_views(runs@).flatten() + pending@ =~= flat_before + (before + piece@));
        } else {
            assert(flat_before + pending@ =~= flat_before + before + piece@);
        }
        i = i + 1;
    }
    assert(pieces@.take(pieces@.len() as int) =~= pieces@);
    if pending.len() > 0 {
        let ghost old_runs = byte_views(runs@);
        let ghost last = pending@;
        runs.push(pending);
        assert(byte_views(runs@) =~= old_runs.push(last));
        proof {
            old_runs.lemma_flatten_push(last);
        }
    } else {
        assert(pending@ =~= Seq::<u8>::empty());
    }
    assert(pieces@.take(pieces@.len() as int) =~= pieces@);
    runs
}

proof fn lemma_digits_value_decimal(n: nat)
    ensures
        digits_value(decimal(n)) == Some(n),
    decreases n,
{
    let d = n % 10;
    assert(digit_char(d) as u32 == 48 + d);
    if n >= 10 {
        lemma_digits_value_decimal(n / 10);
        assert(decimal(n).drop_last() =~= decimal(n / 10));
        assert(decimal(n).last() == digit_char(d));
    } else {
        assert(decimal(n).drop_last() =~= Seq::<char>::empty());
        assert(decimal(n).last() == digit_char(n));
        assert(digits_value(Seq::<char>::empty()) == Some(0nat));
    }
}

proof fn lemma_no_separator_in_decimal(n: nat)
    ensures
        forall|j: int| 0 <= j < decimal(n).len() ==> !is_separator(#[trigger] decimal(n)[j]),
        decimal(n).len() >= 1,
{
    lemma_decimal_digits(n);
}

/// `ids_text` unfolded from the front.
proof fn lemma_ids_text_front(ids: Seq<u32>)
    requires
        ids.len() >= 2,
    ensures
        ids_text_spec(ids) == decimal(ids[0] as nat) + seq![' '] + ids_text_spec(ids.drop_first()),
    decreases ids.len(),
{
    let dl = ids.drop_last();
    let df = ids.drop_first();
    if ids.len() > 2 {
        lemma_ids_text_front(dl);
        assert(dl.drop_first() =~= df.drop_last());
        assert(dl[0] == ids[0]);
        assert(df.last() == ids.last());
        assert(ids_text_spec(ids) =~= decimal(ids[0] as nat) + seq![' '] + ids_text_spec(df));
    } else {
        assert(df.len() == 1);
        assert(dl.len() == 1);
        assert(dl[0] == ids[0]);
        assert(df[0] == ids[1]);
        assert(ids_text_spec(dl) == decimal(dl[0] as nat));
        assert(ids_text_spec(df) == decimal(df[0] as nat));
        assert(ids.last() == ids[1]);
        assert(ids_text_spec(ids) =~= decimal(ids[0] as nat) + seq![' '] + ids_text_spec(df));
    }
}

proof fn lemma_pieces_of_ids_text(ids: Seq<u32>)
    ensures
        id_pieces(ids_text_spec(ids)) == ids.map_values(|id: u32| decimal(id as nat)),
    decreases ids.len(),
{
    let f = |id: u32| decimal(id as nat);
    if ids.len() == 0 {
        assert(ids.map_values(f) =~= Seq::<Seq<char>>::empty());
    } else {
        let d = decimal(ids[0] as nat);
        lemma_no_separator_in_decimal(ids[0] as nat);
        if ids.len() == 1 {
            let s = ids_text_spec(ids);
            assert(s == d);
            lemma_first_separator_at(s, s.len() as int);
            assert(s.take(s.len() as int) =~= s);
            assert(ids.map_values(f) =~= seq![d]);
            assert(id_pieces(s) =~= seq![d]);
        } else {
            lemma_ids_text_front(ids);
            let rest = ids_text_spec(ids.drop_first());
            let s = d + seq![' '] + rest;
            assert forall|j: int| 0 <= j < d.len() implies !is_separator(#[trigger] s[j]) by {
                assert(s[j] == d[j]);
            }
            assert(s[d.len() as int] == ' ');
            lemma_first_separator_at(s, d.len() as int);
            assert(s.take(d.len() as int) =~= d);
            assert(s.skip(d.len() as int + 1) =~= rest);
            lemma_pieces_of_ids_text(ids.drop_first());
            assert(ids.map_values(f) =~= seq![d] + ids.drop_first().map_values(f));
        }
    }
}

proof fn lemma_ids_of_decimals(ids: Seq<u32>)
    ensures
        ids_of_pieces(ids.map_values(|id: u32| decimal(id as nat))) == Ok::<Seq<u32>, Seq<char>>(ids),
    decreases ids.len(),
{
    let f = |id: u32| decimal(id as nat);
    let ps = ids.map_values(f);
    if ids.len() > 0 {
        lemma_digits_value_decimal(ids[0] as nat);
        assert(piece_id(ps[0]) == Some(ids[0]));
        assert(ps.drop_first() =~= ids.drop_first().map_values(f));
        lemma_ids_of_decimals(ids.drop_first());
        assert(seq![ids[0]] + ids.drop_first() =~= ids);
    } else {
        assert(ps.len() == 0);
        assert(ids =~= Seq::<u32>::empty());
    }
}

/// What `--ids` prints, `tok decode` reads back as the same ids.
pub proof fn lemma_ids_round_trip(ids: Seq<u32>)
    ensures
        ids_of_pieces(pieces_of_args(seq![ids_text_spec(ids)])) == Ok::<Seq<u32>, Seq<char>>(ids),
{
    let args = seq![ids_text_spec(ids)];
    assert(args.drop_last() =~= Seq::<Seq<char>>::empty());
    assert(args.last() == ids_text_spec(ids));
    assert(pieces_of_args(Seq::<Seq<char>>::empty()) == Seq::<Seq<char>>::empty());
    assert(pieces_of_args(args) =~= id_pieces(ids_text_spec(ids)));
    lemma_pieces_of_ids_text(ids);
    lemma_ids_of_decimals(ids);
}

} // verus!
