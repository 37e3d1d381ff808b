//! The live playlist written by a camera's recorder, rewritten so that its segments are
//! fetched through the service, and the content types of served files.
use vstd::prelude::*;
use crate::dvr::segment_uri;
use crate::text::{chars_of, ends_with, join_with, push_char, push_chars, push_decimal_i64, push_str};

verus! {

/// `l` without one trailing carriage return.
pub open spec fn without_cr(l: Seq<char>) -> Seq<char> {
    if l.len() > 0 && l.last() == '\r' {
        l.drop_last()
    } else {
        l
    }
}

/// The lines of `s` after the partial line `cur`, as `str::lines` splits them: at each
/// `\n`, dropping one `\r` before it; a last line without `\n` is kept as it is, and an
/// empty text after the last `\n` is no line.
pub open spec fn lines_after(s: Seq<char>, cur: Seq<char>) -> Seq<Seq<char>>
    decreases s.len(),
{
    if s.len() == 0 {
        if cur.len() == 0 {
            Seq::empty()
        } else {
            seq![cur]
        }
    } else if s[0] == '\n' {
        seq![without_cr(cur)] + lines_after(s.skip(1), Seq::empty())
    } else {
        lines_after(s.skip(1), cur.push(s[0]))
    }
}

/// The lines of `s` (`str::lines`).
pub open spec fn text_lines(s: Seq<char>) -> Seq<Seq<char>> {
    lines_after(s, Seq::empty())
}

/// The text of lines, each followed by `\n`.
pub open spec fn lines_text(ls: Seq<Seq<char>>) -> Seq<char>
    decreases ls.len(),
{
    if ls.len() == 0 {
        Seq::empty()
    } else {
        lines_text(ls.drop_last()) + ls.last() + seq!['\n']
    }
}

/// A line without a line break in it.
pub open spec fn unbroken(l: Seq<char>) -> bool {
    forall|i: int| 0 <= i < l.len() ==> #[trigger] l[i] != '\n'
}

/// The text of two runs of lines is the text of the first followed by that of the second.
pub(crate) proof fn lemma_lines_text_add(a: Seq<Seq<char>>, b: Seq<Seq<char>>)
    ensures
        lines_text(a + b) == lines_text(a) + lines_text(b),
    decreases b.len(),
{
    if b.len() == 0 {
        assert(a + b =~= a);
        assert(lines_text(a) + lines_text(b) =~= lines_text(a));
    } else {
        lemma_lines_text_add(a, b.drop_last());
        assert((a + b).drop_last() =~= a + b.drop_last());
        assert((a + b).last() == b.last());
        assert(lines_text(a + b) =~= lines_text(a) + lines_text(b));
    }
}

proof fn lemma_lines_after_line(l: Seq<char>, rest: Seq<char>, cur: Seq<char>)
    requires
        unbroken(l),
    ensures
        lines_after(l + seq!['\n'] + rest, cur) == seq![without_cr(cur + l)] + lines_after(
            rest,
            Seq::empty(),
        ),
    decreases l.len(),
{
    let t = l + seq!['\n'] + rest;
    if l.len() == 0 {
        assert(t[0] == '\n');
        assert(t.skip(1) =~= rest);
        assert(cur + l =~= cur);
    } else {
        assert(t[0] == l[0]);
        assert(t.skip(1) =~= l.skip(1) + seq!['\n'] + rest);
        assert(unbroken(l.skip(1))) by {
            assert forall|i: int| 0 <= i < l.skip(1).len() implies #[trigger] l.skip(1)[i] != '\n' by {
                assert(l.skip(1)[i] == l[i + 1]);
            }
        }
        lemma_lines_after_line(l.skip(1), rest, cur.push(l[0]));
        assert(cur.push(l[0]) + l.skip(1) =~= cur + l);
    }
}

/// Line-splitting law: the lines (`str::lines`) of a text made of lines without line
/// breaks, each ended by `\n`, are those lines, each without one trailing carriage return.
pub proof fn lemma_text_lines_of_lines(ls: Seq<Seq<char>>)
    requires
        forall|i: int| 0 <= i < ls.len() ==> unbroken(#[trigger] ls[i]),
    ensures
        text_lines(lines_text(ls)) == ls.map_values(|l: Seq<char>| without_cr(l)),
    decreases ls.len(),
{
    if ls.len() == 0 {
        assert(ls.map_values(|l: Seq<char>| without_cr(l)) =~= Seq::<Seq<char>>::empty());
    } else {
        let first = seq![ls[0]];
        let rest = ls.drop_first();
        assert(first + rest =~= ls);
        lemma_lines_text_add(first, rest);
        assert(first.drop_last() =~= Seq::<Seq<char>>::empty());
        assert(lines_text(first.drop_last()) =~= Seq::<char>::empty());
        assert(first.last() == ls[0]);
        assert(lines_text(first) =~= ls[0] + seq!['\n']);
        assert(lines_text(ls) =~= ls[0] + seq!['\n'] + lines_text(rest));
        assert(unbroken(ls[0]));
        lemma_lines_after_line(ls[0], lines_text(rest), Seq::empty());
        assert(Seq::<char>::empty() + ls[0] =~= ls[0]);
        assert forall|i: int| 0 <= i < rest.len() implies unbroken(#[trigger] rest[i]) by {
            assert(rest[i] == ls[i + 1]);
        }
        lemma_text_lines_of_lines(rest);
        assert(ls.map_values(|l: Seq<char>| without_cr(l)) =~= seq![without_cr(ls[0])] + rest.map_values(
            |l: Seq<char>| without_cr(l),
        ));
    }
}

/// What follows the last `/` of `l` (all of `l` when it has none).
pub open spec fn after_last_slash(l: Seq<char>) -> Seq<char>
    decreases l.len(),
{
    if l.len() == 0 {
        l
    } else if l.last() == '/' {
        Seq::empty()
    } else {
        after_last_slash(l.drop_last()).push(l.last())
    }
}

/// A playlist line naming a segment file: it ends in `.ts` and is not a tag (`#...`).
pub open spec fn names_segment(l: Seq<char>) -> bool {
    ".ts"@.is_suffix_of(l) && !(l.len() > 0 && l[0] == '#')
}

/// A line of the live playlist as served: a segment line becomes the service path of the
/// file it names; any other line is unchanged.
pub open spec fn served_line(cam_id: i64, l: Seq<char>) -> Seq<char> {
    if names_segment(l) {
        segment_uri(cam_id, after_last_slash(l))
    } else {
        l
    }
}

/// The served lines of a list of lines.
pub open spec fn served_lines(cam_id: i64, ls: Seq<Seq<char>>) -> Seq<Seq<char>> {
    ls.map_values(|l: Seq<char>| served_line(cam_id, l))
}

/// The live playlist of camera `cam_id` as served: its lines, each rewritten by
/// `served_line`, joined by `\n`.
pub open spec fn served_playlist(cam_id: i64, content: Seq<char>) -> Seq<char> {
    join_with(served_lines(cam_id, text_lines(content)), seq!['\n'])
}

fn after_last_slash_of(l: &Vec<char>) -> (r: Vec<char>)
    ensures
        r@ == after_last_slash(l@),
{
    let mut start: usize = 0;
    for i in 0..l.len()
        invariant
            start <= i,
            after_last_slash(l@.take(i as int)) == l@.subrange(start as int, i as int),
    {
        assert(l@.take(i + 1).drop_last() =~= l@.take(i as int));
        if l[i] == '/' {
            start = i + 1;
            assert(after_last_slash(l@.take(i + 1)) =~= l@.subrange(start as int, i + 1));
        } else {
            assert(after_last_slash(l@.take(i + 1)) =~= l@.subrange(start as int, i + 1));
        }
    }
    assert(l@.take(l.len() as int) =~= l@);
    let mut r: Vec<char> = Vec::new();
    for j in start..l.len()
        invariant
            start <= l.len(),
            r@ == l@.subrange(start as int, j as int),
    {
        r.push(l[j]);
        assert(r@ =~= l@.subrange(start as int, j + 1));
    }
    r
}

fn push_served_line(out: &mut String, cam_id: i64, l: &Vec<char>)
    ensures
        final(out)@ == old(out)@ + served_line(cam_id, l@),
{
    let is_segment = ends_with(l, &chars_of(".ts")) && !(l.len() > 0 && l[0] == '#');
    if is_segment {
        let name = after_last_slash_of(l);
        push_str(out, "/api/segments/");
        push_decimal_i64(out, cam_id);
        push_char(out, '/');
        push_chars(out, &name);
    } else {
        push_chars(out, l);
    }
}

proof fn lemma_join_push(ls: Seq<Seq<char>>, x: Seq<char>, sep: Seq<char>)
    ensures
        join_with(ls.push(x), sep) == if ls.len() == 0 {
            x
        } else {
            join_with(ls, sep) + sep + x
        },
{
    assert(ls.push(x).drop_last() =~= ls);
}

/// Rewrites the live playlist that a recorder writes for camera `cam_id` so that every
/// segment line becomes the service path of its file, `/api/segments/<cam_id>/<file>`; the
/// other lines are kept, and the lines are joined by `\n`.
pub fn rewrite_live_playlist(content: &str, cam_id: i64) -> (r: String)
    ensures
        r@ == served_playlist(cam_id, content@),
{
    let v = chars_of(content);
    let mut out = String::new();
    let mut cur: Vec<char> = Vec::new();
    let mut any_line = false;
    let ghost mut done: Seq<Seq<char>> = Seq::empty();
    proof {
        assert(v@.skip(0) =~= v@);
        assert(cur@ =~= Seq::<char>::empty());
    }
    for i in 0..v.len()
        invariant
            v@ == content@,
            text_lines(v@) == done + lines_after(v@.skip(i as int), cur@),
            out@ == join_with(served_lines(cam_id, done), seq!['\n']),
            any_line <==> done.len() > 0,
    {
        let c = v[i];
        let ghost rest = v@.skip(i as int);
        proof {
            assert(rest[0] == c);
            assert(rest.skip(1) =~= v@.skip(i + 1));
        }
        if c == '\n' {
            let mut line = cur;
            if line.len() > 0 && line[line.len() - 1] == '\r' {
                line.pop();
            }
            assert(line@ == without_cr(cur@));
            if any_line {
                push_char(&mut out, '\n');
            }
            push_served_line(&mut out, cam_id, &line);
            proof {
                lemma_join_push(served_lines(cam_id, done), served_line(cam_id, line@), seq!['\n']);
                assert(served_lines(cam_id, done.push(line@)) =~= served_lines(cam_id, done).push(
                    served_line(cam_id, line@),
                ));
                assert(done.push(line@) + lines_after(v@.skip(i + 1), Seq::empty()) =~= done + (
                seq![line@] + lines_after(v@.skip(i + 1), Seq::empty())));
                done = done.push(line@);
            }
            cur = Vec::new();
            assert(cur@ =~= Seq::<char>::empty());
            any_line = true;
        } else {
            cur.push(c);
        }
    }
    proof {
        assert(v@.skip(v@.len() as int) =~= Seq::<char>::empty());
    }
    if cur.len() > 0 {
        if any_line {
            push_char(&mut out, '\n');
        }
        push_served_line(&mut out, cam_id, &cur);
        proof {
            lemma_join_push(served_lines(cam_id, done), served_line(cam_id, cur@), seq!['\n']);
            assert(served_lines(cam_id, done.push(cur@)) =~= served_lines(cam_id, done).push(
                served_line(cam_id, cur@),
            ));
            assert(text_lines(v@) =~= done.push(cur@));
        }
    } else {
        assert(text_lines(v@) =~= done);
    }
    out
}

/// Whether `t` holds no `/`.
pub open spec fn slash_free(t: Seq<char>) -> bool {
    forall|i: int| 0 <= i < t.len() ==> #[trigger] t[i] != '/'
}

proof fn lemma_after_last_slash_free(l: Seq<char>)
    ensures
        slash_free(after_last_slash(l)),
    decreases l.len(),
{
    if l.len() > 0 && l.last() != '/' {
        lemma_after_last_slash_free(l.drop_last());
    }
}

proof fn lemma_after_last_slash_append(q: Seq<char>, t: Seq<char>)
    requires
        slash_free(t),
    ensures
        after_last_slash(q + t) == after_last_slash(q) + t,
    decreases t.len(),
{
    if t.len() == 0 {
        assert(q + t =~= q);
        assert(after_last_slash(q) + t =~= after_last_slash(q));
    } else {
        let t0 = t.drop_last();
        assert(slash_free(t0));
        lemma_after_last_slash_append(q, t0);
        assert((q + t).drop_last() =~= q + t0);
        assert((q + t).last() == t.last());
        assert(after_last_slash(q) + t =~= (after_last_slash(q) + t0).push(t.last()));
    }
}

/// Rewriting law: a served line is served unchanged, so serving a playlist's lines twice
/// gives what serving them once gives.
pub proof fn lemma_served_line_stable(cam_id: i64, l: Seq<char>)
    ensures
        served_line(cam_id, served_line(cam_id, l)) == served_line(cam_id, l),
{
    if names_segment(l) {
        let n = after_last_slash(l);
        let u = segment_uri(cam_id, n);
        lemma_after_last_slash_free(l);
        let ts = ".ts"@;
        reveal_strlit(".ts");
        let k = l.len() - 3;
        let q = l.subrange(0, k);
        let t = l.subrange(k, l.len() as int);
        assert(t =~= ts);
        assert(slash_free(t));
        assert(l =~= q + t);
        lemma_after_last_slash_append(q, t);
        assert(n == after_last_slash(q) + t);
        let pre = "/api/segments/"@ + crate::text::decimal_int(cam_id as int);
        assert(u =~= (pre + seq!['/']) + n);
        lemma_after_last_slash_append(pre + seq!['/'], n);
        assert((pre + seq!['/']).drop_last() =~= pre);
        assert(after_last_slash(pre + seq!['/']) =~= Seq::<char>::empty());
        assert(after_last_slash(u) =~= n);
        reveal_strlit("/api/segments/");
        assert(u[0] == '/');
        assert(u.subrange(u.len() - 3, u.len() as int) =~= ts);
        assert(names_segment(u));
    }
}

/// The content type a served file is sent with: `image/jpeg` for a `.jpg` file,
/// `video/mp2t` (an MPEG transport stream segment) otherwise.
pub fn segment_content_type(filename: &str) -> (r: &'static str)
    ensures
        r@ == if ".jpg"@.is_suffix_of(filename@) {
            "image/jpeg"@
        } else {
            "video/mp2t"@
        },
{
    if ends_with(&chars_of(filename), &chars_of(".jpg")) {
        "image/jpeg"
    } else {
        "video/mp2t"
    }
}

} // verus!
