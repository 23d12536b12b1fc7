//! Terminator-style independence: parsing is blind to whether a document
//! closes its lines with bare line feeds or with carriage-return/line-feed
//! pairs. The law at the end of this module states it for whole documents;
//! the lemmas before it carry the correspondence construct by construct.
use crate::error::ParseErrorKind;
use crate::label::{spec_label, LabelModel};
use crate::line::spec_line;
use crate::scan::{in_class, lemma_span_end, matches_at, span_end, spec_eol, spec_hex, CharClass};
use crate::token::TokenModel;
use crate::word::{spec_word, WordModel};
use crate::{spec_kmd_tag, spec_label_title, spec_labels, spec_lines, spec_parse_kmd};
use vstd::prelude::*;

verus! {

/// A document written with bare line feeds: no carriage return anywhere.
pub open spec fn no_cr(s: Seq<char>) -> bool {
    forall|i: int| 0 <= i < s.len() ==> #[trigger] s[i] != '\r'
}

/// The same text with every line feed turned into a carriage-return/line-feed pair.
pub open spec fn crlf_of(s: Seq<char>) -> Seq<char>
    decreases s.len(),
{
    if s.len() == 0 {
        Seq::empty()
    } else if s.last() == '\n' {
        crlf_of(s.drop_last()) + seq!['\r', '\n']
    } else {
        crlf_of(s.drop_last()).push(s.last())
    }
}

/// How many line feeds occur before position `p`.
pub open spec fn nl_count(s: Seq<char>, p: int) -> int
    decreases p,
{
    if p <= 0 {
        0
    } else {
        nl_count(s, p - 1) + (if s[p - 1] == '\n' {
            1int
        } else {
            0int
        })
    }
}

/// Where position `p` of the original text lands in the converted text.
pub open spec fn cpos(s: Seq<char>, p: int) -> int {
    p + nl_count(s, p)
}

pub proof fn lemma_nl_count_nonneg(s: Seq<char>, p: int)
    ensures
        nl_count(s, p) >= 0,
    decreases p,
{
    if p > 0 {
        lemma_nl_count_nonneg(s, p - 1);
    }
}

pub proof fn lemma_nl_count_drop_last(s: Seq<char>, p: int)
    requires
        0 <= p < s.len(),
    ensures
        nl_count(s, p) == nl_count(s.drop_last(), p),
    decreases p,
{
    if p > 0 {
        lemma_nl_count_drop_last(s, p - 1);
    }
}

/// Positions map monotonically, and a gap never shrinks.
pub proof fn lemma_cpos_mono(s: Seq<char>, p: int, q: int)
    requires
        p <= q,
    ensures
        cpos(s, p) + (q - p) <= cpos(s, q),
    decreases q - p,
{
    if p < q {
        lemma_cpos_mono(s, p, q - 1);
    }
}

/// The converted text is exactly as long as the mapped end position.
pub proof fn lemma_crlf_len(s: Seq<char>)
    ensures
        crlf_of(s).len() == cpos(s, s.len() as int),
    decreases s.len(),
{
    if s.len() > 0 {
        let u = s.drop_last();
        lemma_crlf_len(u);
        lemma_nl_count_drop_last(s, s.len() - 1);
    }
}

/// What one original character becomes: a line feed becomes the pair
/// carriage return then line feed; anything else stays itself.
pub proof fn lemma_crlf_at(s: Seq<char>, p: int)
    requires
        0 <= p < s.len(),
    ensures
        cpos(s, p + 1) == cpos(s, p) + (if s[p] == '\n' {
            2int
        } else {
            1int
        }),
        0 <= cpos(s, p),
        cpos(s, p + 1) <= crlf_of(s).len(),
        s[p] != '\n' ==> crlf_of(s)[cpos(s, p)] == s[p],
        s[p] == '\n' ==> crlf_of(s)[cpos(s, p)] == '\r' && crlf_of(s)[cpos(s, p) + 1] == '\n',
    decreases s.len(),
{
    let u = s.drop_last();
    lemma_nl_count_nonneg(s, p);
    lemma_crlf_len(s);
    lemma_cpos_mono(s, p + 1, s.len() as int);
    if p == s.len() - 1 {
        lemma_crlf_len(u);
        lemma_nl_count_drop_last(s, p);
    } else {
        lemma_crlf_at(u, p);
        lemma_nl_count_drop_last(s, p);
        lemma_nl_count_drop_last(s, p + 1);
        lemma_crlf_len(u);
        lemma_cpos_mono(u, p + 1, u.len() as int);
        assert(u[p] == s[p]);
    }
}

/// A mapped position never points at a line feed of the converted text:
/// every line feed there is the second half of an inserted pair.
pub proof fn lemma_crlf_at_cpos_not_nl(s: Seq<char>, p: int)
    requires
        0 <= p <= s.len(),
        cpos(s, p) < crlf_of(s).len(),
    ensures
        p < s.len(),
        crlf_of(s)[cpos(s, p)] != '\n',
{
    lemma_crlf_len(s);
    if p < s.len() {
        lemma_crlf_at(s, p);
    }
}

/// Over a stretch without line feeds, positions map linearly.
pub proof fn lemma_cpos_run(s: Seq<char>, a: int, p: int)
    requires
        0 <= a <= p <= s.len(),
        forall|i: int| a <= i < p ==> #[trigger] s[i] != '\n',
    ensures
        cpos(s, p) == cpos(s, a) + (p - a),
    decreases p - a,
{
    if a < p {
        lemma_cpos_run(s, a, p - 1);
        lemma_crlf_at(s, p - 1);
    }
}

/// A stretch without line feeds carries over to the converted text verbatim.
pub proof fn lemma_crlf_subrange(s: Seq<char>, a: int, b: int)
    requires
        0 <= a <= b <= s.len(),
        forall|i: int| a <= i < b ==> #[trigger] s[i] != '\n',
    ensures
        cpos(s, b) == cpos(s, a) + (b - a),
        crlf_of(s).subrange(cpos(s, a), cpos(s, b)) == s.subrange(a, b),
{
    lemma_cpos_run(s, a, b);
    lemma_crlf_len(s);
    lemma_cpos_mono(s, b, s.len() as int);
    lemma_nl_count_nonneg(s, a);
    assert forall|k: int| 0 <= k < b - a implies crlf_of(s).subrange(cpos(s, a), cpos(s, b))[k]
        == s.subrange(a, b)[k] by {
        lemma_cpos_run(s, a, a + k);
        lemma_crlf_at(s, a + k);
        assert(s.subrange(a, b)[k] == s[a + k]);
        assert(crlf_of(s).subrange(cpos(s, a), cpos(s, b))[k] == crlf_of(s)[cpos(s, a) + k]);
    }
    assert(crlf_of(s).subrange(cpos(s, a), cpos(s, b)) =~= s.subrange(a, b));
}

/// A match of a terminator-free text in the converted document maps back
/// to a match in the original.
pub proof fn lemma_crlf_matches_back(s: Seq<char>, p: int, t: Seq<char>, k: int)
    requires
        0 <= p <= s.len(),
        0 <= k <= t.len(),
        forall|i: int| 0 <= i < t.len() ==> #[trigger] t[i] != '\r' && t[i] != '\n',
        matches_at(crlf_of(s), cpos(s, p), t),
    ensures
        p + k <= s.len(),
        forall|i: int| 0 <= i < k ==> #[trigger] s[p + i] == t[i],
        cpos(s, p + k) == cpos(s, p) + k,
    decreases k,
{
    lemma_crlf_len(s);
    if k > 0 {
        lemma_crlf_matches_back(s, p, t, k - 1);
        lemma_cpos_mono(s, p + k - 1, s.len() as int);
        assert(cpos(s, p + k - 1) < crlf_of(s).len());
        lemma_crlf_at_cpos_not_nl(s, p + k - 1);
        lemma_crlf_at(s, p + k - 1);
        assert(crlf_of(s).subrange(cpos(s, p), cpos(s, p) + t.len() as int)[k - 1] == crlf_of(s)[
            cpos(s, p) + k - 1]);
        assert(s[p + k - 1] == t[k - 1]);
    }
}

/// Matching a text that holds no terminator is unaffected by the conversion.
pub proof fn lemma_crlf_matches(s: Seq<char>, p: int, t: Seq<char>)
    requires
        no_cr(s),
        0 <= p <= s.len(),
        forall|i: int| 0 <= i < t.len() ==> #[trigger] t[i] != '\r' && t[i] != '\n',
    ensures
        matches_at(crlf_of(s), cpos(s, p), t) <==> matches_at(s, p, t),
        matches_at(s, p, t) ==> cpos(s, p + t.len()) == cpos(s, p) + t.len(),
{
    lemma_crlf_len(s);
    lemma_nl_count_nonneg(s, p);
    if matches_at(s, p, t) {
        assert forall|i: int| p <= i < p + t.len() implies #[trigger] s[i] != '\n' by {
            assert(s.subrange(p, p + t.len() as int)[i - p] == s[i]);
        }
        lemma_crlf_subrange(s, p, p + t.len() as int);
        lemma_cpos_mono(s, p + t.len() as int, s.len() as int);
        assert(matches_at(crlf_of(s), cpos(s, p), t));
    }
    if matches_at(crlf_of(s), cpos(s, p), t) {
        lemma_crlf_matches_back(s, p, t, t.len() as int);
        assert forall|i: int| 0 <= i < t.len() implies s.subrange(p, p + t.len() as int)[i] == t[i]
            by {
            assert(s.subrange(p, p + t.len() as int)[i] == s[p + i]);
        }
        assert(s.subrange(p, p + t.len() as int) =~= t);
    }
}

/// A terminator-free text followed by a line feed matches the original
/// exactly when the same text followed by the full pair matches the
/// conversion; the line-feed-only form never matches the conversion.
pub proof fn lemma_crlf_lit_nl(s: Seq<char>, p: int, w: Seq<char>)
    requires
        no_cr(s),
        0 <= p <= s.len(),
        forall|i: int| 0 <= i < w.len() ==> #[trigger] w[i] != '\r' && w[i] != '\n',
    ensures
        matches_at(crlf_of(s), cpos(s, p), w + seq!['\r', '\n']) <==> matches_at(
            s,
            p,
            w + seq!['\n'],
        ),
        !matches_at(crlf_of(s), cpos(s, p), w + seq!['\n']),
        matches_at(s, p, w + seq!['\n']) ==> cpos(s, p + w.len() + 1) == cpos(s, p) + w.len() + 2,
{
    let c = crlf_of(s);
    let wl = w.len() as int;
    lemma_crlf_len(s);
    lemma_nl_count_nonneg(s, p);
    if matches_at(s, p, w + seq!['\n']) {
        assert forall|i: int| p <= i < p + wl implies #[trigger] s[i] != '\n' by {
            assert(s.subrange(p, p + wl + 1)[i - p] == s[i]);
            assert((w + seq!['\n'])[i - p] == w[i - p]);
        }
        assert(s[p + wl] == '\n') by {
            assert(s.subrange(p, p + wl + 1)[wl] == s[p + wl]);
        }
        lemma_crlf_subrange(s, p, p + wl);
        lemma_crlf_at(s, p + wl);
        assert forall|k: int| 0 <= k < wl + 2 implies c.subrange(
            cpos(s, p),
            cpos(s, p) + wl + 2,
        )[k] == (w + seq!['\r', '\n'])[k] by {
            if k < wl {
                assert(c.subrange(cpos(s, p), cpos(s, p) + wl)[k] == s.subrange(p, p + wl)[k]);
                assert(s.subrange(p, p + wl)[k] == s[p + k]);
                assert(s[p + k] == w[k]) by {
                    assert(s.subrange(p, p + wl + 1)[k] == s[p + k]);
                }
            } else if k == wl {
                assert(c[cpos(s, p + wl)] == '\r');
            } else {
                assert(c[cpos(s, p + wl) + 1] == '\n');
            }
        }
        assert(c.subrange(cpos(s, p), cpos(s, p) + wl + 2) =~= w + seq!['\r', '\n']);
        assert(matches_at(c, cpos(s, p), w + seq!['\r', '\n']));
    }
    if matches_at(c, cpos(s, p), w + seq!['\r', '\n']) {
        assert forall|k: int| 0 <= k < wl implies c.subrange(cpos(s, p), cpos(s, p) + wl)[k] == w[k]
            by {
            assert(c.subrange(cpos(s, p), cpos(s, p) + wl + 2)[k] == (w + seq!['\r', '\n'])[k]);
        }
        assert(c.subrange(cpos(s, p), cpos(s, p) + wl) =~= w);
        assert(matches_at(c, cpos(s, p), w));
        lemma_crlf_matches_back(s, p, w, wl);
        assert(c[cpos(s, p) + wl] == '\r') by {
            assert(c.subrange(cpos(s, p), cpos(s, p) + wl + 2)[wl] == (w + seq!['\r', '\n'])[wl]);
        }
        lemma_cpos_mono(s, p + wl, s.len() as int);
        assert(p + wl < s.len() && s[p + wl] == '\n') by {
            if p + wl == s.len() {
                assert(cpos(s, p + wl) == c.len());
            } else {
                lemma_crlf_at(s, p + wl);
                if s[p + wl] != '\n' {
                    assert(c[cpos(s, p + wl)] == s[p + wl]);
                    assert(s[p + wl] != '\r');
                }
            }
        }
        assert(s.subrange(p, p + wl + 1) =~= w + seq!['\n']) by {
            assert forall|i: int| 0 <= i < wl + 1 implies s.subrange(p, p + wl + 1)[i] == (w
                + seq!['\n'])[i] by {
                assert(s.subrange(p, p + wl + 1)[i] == s[p + i]);
                if i < wl {
                    assert(s[p + i] == w[i]);
                    assert((w + seq!['\n'])[i] == w[i]);
                } else {
                    assert((w + seq!['\n'])[i] == '\n');
                }
            }
        }
        assert(matches_at(s, p, w + seq!['\n']));
    }
    if matches_at(c, cpos(s, p), w + seq!['\n']) {
        assert forall|k: int| 0 <= k < wl implies c.subrange(cpos(s, p), cpos(s, p) + wl)[k] == w[k]
            by {
            assert(c.subrange(cpos(s, p), cpos(s, p) + wl + 1)[k] == (w + seq!['\n'])[k]);
        }
        assert(c.subrange(cpos(s, p), cpos(s, p) + wl) =~= w);
        lemma_crlf_matches_back(s, p, w, wl);
        assert(c[cpos(s, p + wl)] == '\n') by {
            assert(c.subrange(cpos(s, p), cpos(s, p) + wl + 1)[wl] == (w + seq!['\n'])[wl]);
        }
        lemma_crlf_at_cpos_not_nl(s, p + wl);
        assert(false);
    }
}

/// A maximal character run ends at the mapped position of where the
/// original run ends: the conversion inserts a carriage return exactly
/// where a line feed already stood, and the two stand or fall together in
/// every character class of the grammar.
pub proof fn lemma_crlf_span(cl: CharClass, s: Seq<char>, p: int)
    requires
        no_cr(s),
        0 <= p <= s.len(),
    ensures
        span_end(cl, crlf_of(s), cpos(s, p)) == cpos(s, span_end(cl, s, p)),
    decreases s.len() - p,
{
    let c = crlf_of(s);
    lemma_crlf_len(s);
    lemma_nl_count_nonneg(s, p);
    lemma_cpos_mono(s, p, s.len() as int);
    if p < s.len() {
        lemma_crlf_at(s, p);
        if in_class(cl, s[p]) {
            if s[p] == '\n' {
                assert(in_class(cl, '\r'));
                lemma_crlf_span(cl, s, p + 1);
                assert(span_end(cl, c, cpos(s, p)) == span_end(cl, c, cpos(s, p) + 1));
                assert(span_end(cl, c, cpos(s, p) + 1) == span_end(cl, c, cpos(s, p) + 2));
            } else {
                lemma_crlf_span(cl, s, p + 1);
            }
        } else {
            if s[p] == '\n' {
                assert(!in_class(cl, '\r'));
            } else {
                assert(c[cpos(s, p)] == s[p]);
            }
        }
    }
}

/// A line terminator of the original maps to one of the conversion, and a
/// position without one stays without one.
pub proof fn lemma_crlf_eol(s: Seq<char>, p: int)
    requires
        no_cr(s),
        0 <= p <= s.len(),
    ensures
        spec_eol(crlf_of(s), cpos(s, p)) == (match spec_eol(s, p) {
            Some(q) => Some(cpos(s, q)),
            None => None::<int>,
        }),
{
    let c = crlf_of(s);
    lemma_crlf_len(s);
    lemma_nl_count_nonneg(s, p);
    lemma_cpos_mono(s, p, s.len() as int);
    if p < s.len() {
        lemma_crlf_at(s, p);
        if s[p] == '\n' {
            assert(spec_eol(s, p) == Some(p + 1));
            assert(spec_eol(c, cpos(s, p)) == Some(cpos(s, p) + 2));
        } else {
            assert(spec_eol(s, p) is None);
            assert(c[cpos(s, p)] == s[p]);
            assert(spec_eol(c, cpos(s, p)) is None);
        }
    } else {
        assert(cpos(s, p) == c.len());
    }
}

/// The hexadecimal scanner reads the same value either way.
pub proof fn lemma_crlf_hex(s: Seq<char>, p: int)
    requires
        no_cr(s),
        0 <= p <= s.len(),
    ensures
        spec_hex(crlf_of(s), cpos(s, p)) == (match spec_hex(s, p) {
            Ok((v, e)) => Ok::<(u32, int), (ParseErrorKind, int)>((v, cpos(s, e))),
            Err((k, q)) => Err::<(u32, int), (ParseErrorKind, int)>((k, cpos(s, q))),
        }),
{
    let c = crlf_of(s);
    lemma_crlf_span(CharClass::HexSpace, s, p);
    let e = span_end(CharClass::HexSpace, s, p);
    lemma_span_end(CharClass::HexSpace, s, p);
    assert forall|i: int| p <= i < e implies #[trigger] s[i] != '\n' by {
        assert(in_class(CharClass::HexSpace, s[i]));
    }
    lemma_crlf_subrange(s, p, e);
}

/// The word decoder reads the same word either way.
pub proof fn lemma_crlf_word(s: Seq<char>, p: int)
    requires
        no_cr(s),
        0 <= p <= s.len(),
    ensures
        spec_word(crlf_of(s), cpos(s, p)) == (match spec_word(s, p) {
            Ok((w, e)) => Ok::<(WordModel, int), (ParseErrorKind, int)>((w, cpos(s, e))),
            Err((k, q)) => Err::<(WordModel, int), (ParseErrorKind, int)>((k, cpos(s, q))),
        }),
{
    let c = crlf_of(s);
    lemma_crlf_span(CharClass::HexSpace, s, p);
    let e = span_end(CharClass::HexSpace, s, p);
    lemma_span_end(CharClass::HexSpace, s, p);
    assert forall|i: int| p <= i < e implies #[trigger] s[i] != '\n' by {
        assert(in_class(CharClass::HexSpace, s[i]));
    }
    lemma_crlf_subrange(s, p, e);
}

/// The format tag is recognized the same way either way: its line-feed
/// form in the original corresponds to its full-pair form in the conversion.
pub proof fn lemma_crlf_tag(s: Seq<char>, p: int)
    requires
        no_cr(s),
        0 <= p <= s.len(),
    ensures
        spec_kmd_tag(crlf_of(s), cpos(s, p)) == (match spec_kmd_tag(s, p) {
            Ok(q) => Ok::<int, (ParseErrorKind, int)>(cpos(s, q)),
            Err((k, q)) => Err::<int, (ParseErrorKind, int)>((k, cpos(s, q))),
        }),
{
    let c = crlf_of(s);
    let cp = cpos(s, p);
    let w = seq!['K', 'M', 'D'];
    lemma_crlf_len(s);
    lemma_nl_count_nonneg(s, p);
    lemma_cpos_mono(s, p, s.len() as int);
    lemma_crlf_lit_nl(s, p, w);
    let m_s = matches_at(s, p, w + seq!['\n']);
    let lf_s = p + 4 <= s.len() && s[p] == 'K' && s[p + 1] == 'M' && s[p + 2] == 'D' && s[p + 3]
        == '\n';
    assert(m_s == lf_s) by {
        if lf_s {
            assert forall|i: int| 0 <= i < 4 implies s.subrange(p, p + 4)[i] == (w
                + seq!['\n'])[i] by {
                assert(s.subrange(p, p + 4)[i] == s[p + i]);
            }
            assert(s.subrange(p, p + 4) =~= w + seq!['\n']);
        }
        if m_s {
            assert(s.subrange(p, p + 4)[0] == s[p]);
            assert(s.subrange(p, p + 4)[1] == s[p + 1]);
            assert(s.subrange(p, p + 4)[2] == s[p + 2]);
            assert(s.subrange(p, p + 4)[3] == s[p + 3]);
        }
    }
    if p + 5 <= s.len() && s[p + 3] == '\r' {
        assert(false);
    }
    let m_c = matches_at(c, cp, w + seq!['\r', '\n']);
    let crlf_c = cp + 5 <= c.len() && c[cp] == 'K' && c[cp + 1] == 'M' && c[cp + 2] == 'D' && c[cp
        + 3] == '\r' && c[cp + 4] == '\n';
    assert(m_c == crlf_c) by {
        if crlf_c {
            assert forall|i: int| 0 <= i < 5 implies c.subrange(cp, cp + 5)[i] == (w
                + seq!['\r', '\n'])[i] by {
                assert(c.subrange(cp, cp + 5)[i] == c[cp + i]);
            }
            assert(c.subrange(cp, cp + 5) =~= w + seq!['\r', '\n']);
        }
        if m_c {
            assert(c.subrange(cp, cp + 5)[0] == c[cp]);
            assert(c.subrange(cp, cp + 5)[1] == c[cp + 1]);
            assert(c.subrange(cp, cp + 5)[2] == c[cp + 2]);
            assert(c.subrange(cp, cp + 5)[3] == c[cp + 3]);
            assert(c.subrange(cp, cp + 5)[4] == c[cp + 4]);
        }
    }
    let lfm_c = matches_at(c, cp, w + seq!['\n']);
    let lf_c = cp + 4 <= c.len() && c[cp] == 'K' && c[cp + 1] == 'M' && c[cp + 2] == 'D' && c[cp
        + 3] == '\n';
    assert(lfm_c == lf_c) by {
        if lf_c {
            assert forall|i: int| 0 <= i < 4 implies c.subrange(cp, cp + 4)[i] == (w
                + seq!['\n'])[i] by {
                assert(c.subrange(cp, cp + 4)[i] == c[cp + i]);
            }
            assert(c.subrange(cp, cp + 4) =~= w + seq!['\n']);
        }
        if lfm_c {
            assert(c.subrange(cp, cp + 4)[0] == c[cp]);
            assert(c.subrange(cp, cp + 4)[1] == c[cp + 1]);
            assert(c.subrange(cp, cp + 4)[2] == c[cp + 2]);
            assert(c.subrange(cp, cp + 4)[3] == c[cp + 3]);
        }
    }
}

/// The section header is recognized the same way either way.
pub proof fn lemma_crlf_title(s: Seq<char>, p: int)
    requires
        no_cr(s),
        0 <= p <= s.len(),
    ensures
        spec_label_title(crlf_of(s), cpos(s, p)) == (match spec_label_title(s, p) {
            Ok(q) => Ok::<int, (ParseErrorKind, int)>(cpos(s, q)),
            Err((k, q)) => Err::<int, (ParseErrorKind, int)>((k, cpos(s, q))),
        }),
{
    let c = crlf_of(s);
    let cp = cpos(s, p);
    reveal_strlit("Symbol Table: Labels");
    reveal_strlit("Symbol Table: Labels\n");
    reveal_strlit("Symbol Table: Labels\r\n");
    let w = "Symbol Table: Labels"@;
    assert("Symbol Table: Labels\n"@ =~= w + seq!['\n']);
    assert("Symbol Table: Labels\r\n"@ =~= w + seq!['\r', '\n']);
    assert(forall|i: int| 0 <= i < w.len() ==> #[trigger] w[i] != '\r' && w[i] != '\n');
    lemma_crlf_len(s);
    lemma_nl_count_nonneg(s, p);
    lemma_cpos_mono(s, p, s.len() as int);
    lemma_crlf_lit_nl(s, p, w);
    if matches_at(s, p, w + seq!['\r', '\n']) {
        assert(s.subrange(p, p + w.len() as int + 2)[w.len() as int] == s[p + w.len()]);
        assert(false);
    }
}

/// A single delimiter character is seen at a position of the original
/// exactly when it is seen at the mapped position of the conversion.
pub proof fn lemma_crlf_char_eq(s: Seq<char>, q: int, ch: char)
    requires
        no_cr(s),
        0 <= q <= s.len(),
        ch != '\r',
        ch != '\n',
    ensures
        (q < s.len() && s[q] == ch) <==> (cpos(s, q) < crlf_of(s).len() && crlf_of(s)[cpos(s, q)]
            == ch),
        (q < s.len() && s[q] == ch) ==> cpos(s, q + 1) == cpos(s, q) + 1,
{
    lemma_crlf_len(s);
    lemma_cpos_mono(s, q, s.len() as int);
    lemma_nl_count_nonneg(s, q);
    if q < s.len() {
        lemma_crlf_at(s, q);
    }
}

/// One body line parses to the same token either way.
pub proof fn lemma_crlf_line(s: Seq<char>, p: int)
    requires
        no_cr(s),
        0 <= p <= s.len(),
    ensures
        spec_line(crlf_of(s), cpos(s, p)) == (match spec_line(s, p) {
            Ok((t, q)) => Ok::<(TokenModel, int), (ParseErrorKind, int)>((t, cpos(s, q))),
            Err((k, q)) => Err::<(TokenModel, int), (ParseErrorKind, int)>((k, cpos(s, q))),
        }),
{
    let c = crlf_of(s);
    let cp = cpos(s, p);
    lemma_crlf_len(s);
    lemma_nl_count_nonneg(s, p);
    lemma_cpos_mono(s, p, s.len() as int);
    lemma_crlf_tag(s, p);
    if spec_kmd_tag(s, p) is Err {
        lemma_crlf_hex(s, p);
        lemma_span_end(CharClass::HexSpace, s, p);
        let p1 = match spec_hex(s, p) {
            Ok((v, e)) => e,
            Err(_) => p,
        };
        assert(0 <= p1 <= s.len());
        lemma_crlf_char_eq(s, p1, ':');
        let p2 = if p1 < s.len() && s[p1] == ':' {
            p1 + 1
        } else {
            p1
        };
        assert(cpos(s, p2) == (if p1 < s.len() && s[p1] == ':' {
            cpos(s, p1) + 1
        } else {
            cpos(s, p1)
        }));
        lemma_crlf_span(CharClass::Horizontal, s, p2);
        let p3 = span_end(CharClass::Horizontal, s, p2);
        lemma_span_end(CharClass::Horizontal, s, p2);
        lemma_crlf_word(s, p3);
        lemma_span_end(CharClass::HexSpace, s, p3);
        let p4 = match spec_word(s, p3) {
            Ok((w, e)) => e,
            Err(_) => p3,
        };
        assert(0 <= p4 <= s.len());
        lemma_crlf_span(CharClass::Horizontal, s, p4);
        let p5 = span_end(CharClass::Horizontal, s, p4);
        lemma_span_end(CharClass::Horizontal, s, p4);
        lemma_crlf_char_eq(s, p5, ';');
        if p5 < s.len() && s[p5] == ';' {
            let p6 = p5 + 1;
            lemma_crlf_span(CharClass::CommentChar, s, p6);
            let p7 = span_end(CharClass::CommentChar, s, p6);
            lemma_span_end(CharClass::CommentChar, s, p6);
            assert forall|i: int| p6 <= i < p7 implies #[trigger] s[i] != '\n' by {
                assert(in_class(CharClass::CommentChar, s[i]));
            }
            lemma_crlf_subrange(s, p6, p7);
            lemma_crlf_eol(s, p7);
        }
    }
}

/// One symbol-table line parses to the same label either way.
pub proof fn lemma_crlf_label(s: Seq<char>, p: int)
    requires
        no_cr(s),
        0 <= p <= s.len(),
    ensures
        spec_label(crlf_of(s), cpos(s, p)) == (match spec_label(s, p) {
            Ok((lm, q)) => Ok::<(LabelModel, int), (ParseErrorKind, int)>((lm, cpos(s, q))),
            Err((k, q)) => Err::<(LabelModel, int), (ParseErrorKind, int)>((k, cpos(s, q))),
        }),
{
    let c = crlf_of(s);
    let cp = cpos(s, p);
    reveal_strlit(": ");
    reveal_strlit("Global - ");
    reveal_strlit("Local -- ");
    reveal_strlit("Thumb");
    reveal_strlit("ARM");
    lemma_crlf_len(s);
    lemma_nl_count_nonneg(s, p);
    lemma_cpos_mono(s, p, s.len() as int);
    assert(forall|i: int| 0 <= i < ": "@.len() ==> #[trigger] ": "@[i] != '\r' && ": "@[i]
        != '\n');
    lemma_crlf_matches(s, p, ": "@);
    if matches_at(s, p, ": "@) {
        let p1 = p + ": "@.len() as int;
        assert(cpos(s, p1) == cpos(s, p) + ": "@.len());
        lemma_crlf_span(CharClass::Alphabetic, s, p1);
        let p2 = span_end(CharClass::Alphabetic, s, p1);
        lemma_span_end(CharClass::Alphabetic, s, p1);
        assert forall|i: int| p1 <= i < p2 implies #[trigger] s[i] != '\n' by {
            assert(in_class(CharClass::Alphabetic, s[i]));
        }
        lemma_crlf_subrange(s, p1, p2);
        lemma_crlf_span(CharClass::Padding, s, p2);
        let p3 = span_end(CharClass::Padding, s, p2);
        lemma_span_end(CharClass::Padding, s, p2);
        lemma_crlf_hex(s, p3);
        lemma_span_end(CharClass::HexSpace, s, p3);
        if spec_hex(s, p3) is Ok {
            let p4 = match spec_hex(s, p3) {
                Ok((v, e)) => e,
                Err(_) => p3,
            };
            lemma_crlf_span(CharClass::Padding, s, p4);
            let p5 = span_end(CharClass::Padding, s, p4);
            lemma_span_end(CharClass::Padding, s, p4);
            assert(forall|i: int| 0 <= i < "Global - "@.len() ==> #[trigger] "Global - "@[i]
                != '\r' && "Global - "@[i] != '\n');
            assert(forall|i: int| 0 <= i < "Local -- "@.len() ==> #[trigger] "Local -- "@[i]
                != '\r' && "Local -- "@[i] != '\n');
            lemma_crlf_matches(s, p5, "Global - "@);
            lemma_crlf_matches(s, p5, "Local -- "@);
            if matches_at(s, p5, "Global - "@) || matches_at(s, p5, "Local -- "@) {
                let exported = matches_at(s, p5, "Global - "@);
                let p6 = if exported {
                    p5 + "Global - "@.len() as int
                } else {
                    p5 + "Local -- "@.len() as int
                };
                assert(0 <= p6 <= s.len());
                assert(forall|i: int| 0 <= i < "Thumb"@.len() ==> #[trigger] "Thumb"@[i] != '\r'
                    && "Thumb"@[i] != '\n');
                assert(forall|i: int| 0 <= i < "ARM"@.len() ==> #[trigger] "ARM"@[i] != '\r'
                    && "ARM"@[i] != '\n');
                lemma_crlf_matches(s, p6, "Thumb"@);
                lemma_crlf_matches(s, p6, "ARM"@);
                if matches_at(s, p6, "Thumb"@) || matches_at(s, p6, "ARM"@) {
                    let thumb = matches_at(s, p6, "Thumb"@);
                    let p7 = if thumb {
                        p6 + "Thumb"@.len() as int
                    } else {
                        p6 + "ARM"@.len() as int
                    };
                    assert(0 <= p7 <= s.len());
                    lemma_crlf_eol(s, p7);
                }
            }
        }
    }
}

/// A recognized body line always consumes at least one character and never
/// runs past the end of the input.
pub proof fn lemma_spec_line_bounds(s: Seq<char>, p: int)
    requires
        0 <= p <= s.len(),
    ensures
        spec_line(s, p) matches Ok((t, q)) ==> p < q <= s.len(),
{
    if spec_kmd_tag(s, p) is Err {
        lemma_span_end(CharClass::HexSpace, s, p);
        let p1 = match spec_hex(s, p) {
            Ok((v, e)) => e,
            Err(_) => p,
        };
        let p2 = if p1 < s.len() && s[p1] == ':' {
            p1 + 1
        } else {
            p1
        };
        lemma_span_end(CharClass::Horizontal, s, p2);
        let p3 = span_end(CharClass::Horizontal, s, p2);
        lemma_span_end(CharClass::HexSpace, s, p3);
        let p4 = match spec_word(s, p3) {
            Ok((w, e)) => e,
            Err(_) => p3,
        };
        lemma_span_end(CharClass::Horizontal, s, p4);
        let p5 = span_end(CharClass::Horizontal, s, p4);
        if p5 < s.len() && s[p5] == ';' {
            lemma_span_end(CharClass::CommentChar, s, p5 + 1);
        }
    }
}

/// A recognized label line always consumes at least one character and
/// never runs past the end of the input.
pub proof fn lemma_spec_label_bounds(s: Seq<char>, p: int)
    requires
        0 <= p <= s.len(),
    ensures
        spec_label(s, p) matches Ok((lm, q)) ==> p < q <= s.len(),
{
    if matches_at(s, p, ": "@) {
        let p1 = p + ": "@.len() as int;
        lemma_span_end(CharClass::Alphabetic, s, p1);
        let p2 = span_end(CharClass::Alphabetic, s, p1);
        lemma_span_end(CharClass::Padding, s, p2);
        let p3 = span_end(CharClass::Padding, s, p2);
        lemma_span_end(CharClass::HexSpace, s, p3);
        if spec_hex(s, p3) is Ok {
            let p4 = match spec_hex(s, p3) {
                Ok((v, e)) => e,
                Err(_) => p3,
            };
            lemma_span_end(CharClass::Padding, s, p4);
        }
    }
}

/// Where a run of body lines stops, relative to where it started.
pub proof fn lemma_spec_lines_bounds(s: Seq<char>, p: int)
    requires
        0 <= p <= s.len(),
    ensures
        p <= spec_lines(s, p).1 <= s.len(),
    decreases s.len() - p,
{
    match spec_line(s, p) {
        Ok((t, q)) => {
            if p < q <= s.len() {
                lemma_spec_lines_bounds(s, q);
            }
        },
        Err(_) => {},
    }
}

/// A run of body lines collects the same tokens either way and stops at
/// the mapped position.
pub proof fn lemma_crlf_lines(s: Seq<char>, p: int)
    requires
        no_cr(s),
        0 <= p <= s.len(),
    ensures
        spec_lines(crlf_of(s), cpos(s, p)).0 == spec_lines(s, p).0,
        spec_lines(crlf_of(s), cpos(s, p)).1 == cpos(s, spec_lines(s, p).1),
    decreases s.len() - p,
{
    let c = crlf_of(s);
    lemma_crlf_len(s);
    lemma_nl_count_nonneg(s, p);
    lemma_cpos_mono(s, p, s.len() as int);
    lemma_crlf_line(s, p);
    lemma_spec_line_bounds(s, p);
    match spec_line(s, p) {
        Ok((t, q)) => {
            lemma_cpos_mono(s, p, q);
            lemma_cpos_mono(s, q, s.len() as int);
            lemma_crlf_lines(s, q);
        },
        Err(_) => {},
    }
}

/// A run of label lines collects the same tokens either way and stops at
/// the mapped position.
pub proof fn lemma_crlf_labels(s: Seq<char>, p: int)
    requires
        no_cr(s),
        0 <= p <= s.len(),
    ensures
        spec_labels(crlf_of(s), cpos(s, p)).0 == spec_labels(s, p).0,
        spec_labels(crlf_of(s), cpos(s, p)).1 == cpos(s, spec_labels(s, p).1),
    decreases s.len() - p,
{
    let c = crlf_of(s);
    lemma_crlf_len(s);
    lemma_nl_count_nonneg(s, p);
    lemma_cpos_mono(s, p, s.len() as int);
    lemma_crlf_label(s, p);
    lemma_spec_label_bounds(s, p);
    match spec_label(s, p) {
        Ok((lm, q)) => {
            lemma_cpos_mono(s, p, q);
            lemma_cpos_mono(s, q, s.len() as int);
            lemma_crlf_labels(s, q);
        },
        Err(_) => {},
    }
}

/// Terminator-style independence. Take a document written with bare line
/// feeds and convert every terminator to a carriage-return/line-feed pair:
/// a parse of the conversion recognizes exactly the same tokens as a parse
/// of the original, and consumption stops at the mapped position. A parse
/// that fails keeps its error kind, at the mapped position.
pub proof fn lemma_parse_crlf_independent(s: Seq<char>)
    requires
        no_cr(s),
    ensures
        match (spec_parse_kmd(s), spec_parse_kmd(crlf_of(s))) {
            (Ok((toks, end)), Ok((toks2, end2))) => toks2 == toks && end2 == cpos(s, end),
            (Err((k, q)), Err((k2, q2))) => k2 == k && q2 == cpos(s, q),
            _ => false,
        },
{
    let c = crlf_of(s);
    lemma_crlf_len(s);
    assert(cpos(s, 0) == 0);
    lemma_crlf_tag(s, 0);
    match spec_kmd_tag(s, 0) {
        Err(_) => {},
        Ok(p1) => {
            lemma_crlf_line(s, p1);
            match spec_line(s, p1) {
                Err(_) => {},
                Ok(_) => {
                    lemma_crlf_lines(s, p1);
                    lemma_spec_lines_bounds(s, p1);
                    let p2 = spec_lines(s, p1).1;
                    lemma_crlf_eol(s, p2);
                    match spec_eol(s, p2) {
                        None => {},
                        Some(p3) => {
                            lemma_crlf_title(s, p3);
                            match spec_label_title(s, p3) {
                                Err(_) => {},
                                Ok(p4) => {
                                    lemma_crlf_labels(s, p4);
                                },
                            }
                        },
                    }
                },
            }
        },
    }
}

} // verus!
