//! Filename search: the `LIKE` pattern of a query and the text shown for each hit.

use vstd::prelude::*;
use vstd::string::*;
use vstd::utf8::{decode_utf8, is_char_boundary};
use crate::digest::hash_preview;
use crate::text::{push_signed, signed_decimal};

verus! {

/// The characters that `LIKE` treats specially under `ESCAPE '\'`: the escape character
/// itself and the two wildcards.
pub open spec fn is_like_special(c: char) -> bool {
    c == '\\' || c == '%' || c == '_'
}

/// `q` with each special character preceded by `\`, so that `LIKE ... ESCAPE '\'` reads
/// every character of `q` literally.
pub open spec fn like_escaped(q: Seq<char>) -> Seq<char>
    decreases q.len(),
{
    if q.len() == 0 {
        Seq::empty()
    } else {
        like_escaped(q.drop_last()) + if is_like_special(q.last()) {
            seq!['\\', q.last()]
        } else {
            seq![q.last()]
        }
    }
}

/// The SQL `LIKE` pattern (for `LIKE ?1 ESCAPE '\'`) that matches `query` as a plain
/// substring anywhere in a file name: `%`, the query with `\`, `%` and `_` escaped, and `%`.
pub fn like_pattern(query: &str) -> (r: String)
    ensures
        r@ == seq!['%'] + like_escaped(query@) + seq!['%'],
{
    proof {
        reveal_strlit("%");
        reveal_strlit("\\");
    }
    let mut s = "%".to_owned();
    let n = query.unicode_len();
    let mut i: usize = 0;
    assert(query@.take(0) =~= Seq::<char>::empty());
    while i < n
        invariant
            n == query@.len(),
            i <= n,
            s@ == seq!['%'] + like_escaped(query@.take(i as int)),
        decreases n - i,
    {
        let c = query.get_char(i);
        let piece = query.substring_char(i, i + 1);
        assert(piece@ =~= seq![c]);
        assert(query@.take((i + 1) as int).drop_last() =~= query@.take(i as int));
        assert(query@.take((i + 1) as int).last() == c);
        if c == '\\' || c == '%' || c == '_' {
            proof {
                reveal_strlit("\\");
            }
            assert("\\"@.len() == 1);
            assert("\\"@[0] == '\\');
            s.append("\\");
            s.append(piece);
            assert(s@ =~= seq!['%'] + like_escaped(query@.take((i + 1) as int)));
        } else {
            s.append(piece);
            assert(s@ =~= seq!['%'] + like_escaped(query@.take((i + 1) as int)));
        }
        i = i + 1;
    }
    assert(query@.take(n as int) =~= query@);
    s.append("%");
    assert(s@ =~= seq!['%'] + like_escaped(query@) + seq!['%']);
    s
}

/// The text shown for one search hit (printed followed by a newline): the path, then an
/// indented line with the size, the modification time and the first 16 bytes of the hash.
pub fn result_text(path: &str, size: i64, mtime: i64, sha256: &str) -> (r: String)
    requires
        is_char_boundary(sha256.spec_bytes(), 16),
    ensures
        r@ == path@ + "\n  size="@ + signed_decimal(size as int) + " mtime="@ + signed_decimal(
            mtime as int,
        ) + " sha256="@ + decode_utf8(sha256.spec_bytes().subrange(0, 16)) + "\n"@,
{
    let mut s = path.to_owned();
    s.append("\n  size=");
    push_signed(&mut s, size);
    s.append(" mtime=");
    push_signed(&mut s, mtime);
    s.append(" sha256=");
    s.append(hash_preview(sha256));
    s.append("\n");
    s
}

/// Reads a `LIKE ... ESCAPE '\'` pattern text back to the characters it stands for: a `\`
/// followed by any character stands for that character; any other character for itself.
pub open spec fn like_unescape(p: Seq<char>) -> Seq<char>
    decreases p.len(),
{
    if p.len() == 0 {
        Seq::empty()
    } else if p[0] == '\\' && p.len() >= 2 {
        seq![p[1]] + like_unescape(p.skip(2))
    } else {
        seq![p[0]] + like_unescape(p.skip(1))
    }
}

/// Every `\`, `%` and `_` of the pattern text stands escaped (after a `\`): no character of it
/// acts as a wildcard or as a dangling escape.
pub open spec fn all_special_escaped(p: Seq<char>) -> bool
    decreases p.len(),
{
    if p.len() == 0 {
        true
    } else if p[0] == '\\' {
        p.len() >= 2 && is_like_special(p[1]) && all_special_escaped(p.skip(2))
    } else {
        !is_like_special(p[0]) && all_special_escaped(p.skip(1))
    }
}

/// The escaped text of one character.
spec fn escape_char(c: char) -> Seq<char> {
    if is_like_special(c) {
        seq!['\\', c]
    } else {
        seq![c]
    }
}

proof fn lemma_escaped_front(q: Seq<char>)
    requires
        q.len() > 0,
    ensures
        like_escaped(q) == escape_char(q[0]) + like_escaped(q.drop_first()),
    decreases q.len(),
{
    if q.len() == 1 {
        assert(q.drop_last() =~= Seq::<char>::empty());
        assert(q.drop_first() =~= Seq::<char>::empty());
        assert(like_escaped(q) =~= escape_char(q[0]) + like_escaped(q.drop_first()));
    } else {
        let q0 = q.drop_last();
        lemma_escaped_front(q0);
        assert(q0.drop_first() =~= q.drop_first().drop_last());
        assert(q.drop_first().last() == q.last());
        assert(like_escaped(q) =~= escape_char(q[0]) + like_escaped(q.drop_first()));
    }
}

proof fn lemma_unescape_escaped(q: Seq<char>, rest: Seq<char>)
    ensures
        like_unescape(like_escaped(q) + rest) == q + like_unescape(rest),
        all_special_escaped(like_escaped(q) + rest) == all_special_escaped(rest),
    decreases q.len(),
{
    if q.len() == 0 {
        assert(like_escaped(q) + rest =~= rest);
        assert(q + like_unescape(rest) =~= like_unescape(rest));
    } else {
        lemma_escaped_front(q);
        let c = q[0];
        let tail = like_escaped(q.drop_first()) + rest;
        lemma_unescape_escaped(q.drop_first(), rest);
        let whole = like_escaped(q) + rest;
        assert(whole =~= escape_char(c) + tail);
        if is_like_special(c) {
            assert(whole[0] == '\\');
            assert(whole[1] == c);
            assert(whole.skip(2) =~= tail);
        } else {
            assert(whole[0] == c);
            assert(whole.skip(1) =~= tail);
        }
        assert(q =~= seq![c] + q.drop_first());
        assert(q + like_unescape(rest) =~= seq![c] + (q.drop_first() + like_unescape(rest)));
    }
}

/// The search pattern keeps the whole query and adds only escapes: reading the escaped query
/// back gives the query itself, character for character and in order, and every `\`, `%` and
/// `_` in it stands escaped, so the query is matched as plain text. A query without such
/// characters is used unchanged.
pub proof fn law_escaped_query_reads_back(q: Seq<char>)
    ensures
        like_unescape(like_escaped(q)) == q,
        all_special_escaped(like_escaped(q)),
        (forall|k: int| 0 <= k < q.len() ==> !is_like_special(#[trigger] q[k])) ==> like_escaped(
            q,
        ) == q,
    decreases q.len(),
{
    lemma_unescape_escaped(q, Seq::empty());
    assert(like_escaped(q) + Seq::<char>::empty() =~= like_escaped(q));
    assert(q + like_unescape(Seq::<char>::empty()) =~= q);
    if forall|k: int| 0 <= k < q.len() ==> !is_like_special(#[trigger] q[k]) {
        if q.len() > 0 {
            let q0 = q.drop_last();
            assert forall|k: int| 0 <= k < q0.len() implies !is_like_special(#[trigger] q0[k]) by {
                assert(q0[k] == q[k]);
            }
            law_escaped_query_reads_back(q0);
            assert(!is_like_special(q[q.len() - 1]));
            assert(like_escaped(q) =~= q0.push(q.last()));
            assert(q =~= q0.push(q.last()));
        }
    }
}

} // verus!
