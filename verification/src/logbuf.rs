//! The pure planning behind the host-side log buffer: how content is
//! split into prefixed lines, and where appending lands the cursor
//! once the buffer is trimmed.

use vstd::prelude::*;

verus! {

/// The position of the first newline at or after `pos`.
pub open spec fn line_break(s: Seq<char>, pos: int) -> int
    decreases s.len() - pos,
{
    if 0 <= pos < s.len() && s[pos] != '\n' {
        line_break(s, pos + 1)
    } else {
        pos
    }
}

/// One line's text: the span up to the break, with one trailing
/// carriage return dropped.
pub open spec fn line_body(s: Seq<char>, pos: int, brk: int) -> Seq<char> {
    let seg = s.subrange(pos, brk);
    if seg.len() > 0 && seg[seg.len() - 1] == '\r' {
        seg.take(seg.len() - 1)
    } else {
        seg
    }
}

/// The lines of a text, split at newlines, each without a trailing
/// carriage return, with no empty line after a final newline.
pub open spec fn spec_lines(s: Seq<char>, pos: int) -> Seq<Seq<char>>
    decreases s.len() - pos,
{
    if !(0 <= pos <= s.len()) || pos == s.len() {
        Seq::empty()
    } else {
        let brk = line_break(s, pos);
        if pos <= brk <= s.len() {
            if brk == s.len() {
                seq![line_body(s, pos, brk)]
            } else {
                seq![line_body(s, pos, brk)] + spec_lines(s, brk + 1)
            }
        } else {
            Seq::empty()
        }
    }
}

proof fn lemma_line_break_bounds(s: Seq<char>, pos: int)
    requires
        0 <= pos <= s.len(),
    ensures
        pos <= line_break(s, pos) <= s.len(),
        forall|k: int| pos <= k < line_break(s, pos) ==> #[trigger] s[k] != '\n',
        line_break(s, pos) < s.len() ==> s[line_break(s, pos)] == '\n',
    decreases s.len() - pos,
{
    if pos < s.len() && s[pos] != '\n' {
        lemma_line_break_bounds(s, pos + 1);
    }
}

/// Each line of `content`, with `prefix` put in front of it.
pub fn prefix_lines(prefix: &String, content: &String) -> (r: Vec<String>)
    ensures
        r.deep_view().len() == spec_lines(content@, 0).len(),
        forall|i: int|
            0 <= i < r.deep_view().len() ==> r.deep_view()[i] == prefix@ + spec_lines(
                content@,
                0,
            )[i],
{
    let v = crate::strutil::chars_of(content.as_str());
    let n = v.len();
    let mut out: Vec<String> = Vec::new();
    let mut pos: usize = 0;
    let ghost s = content@;
    while pos < n
        invariant
            0 <= pos <= n,
            n == s.len(),
            v@ == s,
            out.deep_view().len() + spec_lines(s, pos as int).len() == spec_lines(s, 0).len(),
            forall|i: int|
                0 <= i < out.deep_view().len() ==> out.deep_view()[i] == prefix@ + spec_lines(
                    s,
                    0,
                )[i],
            forall|i: int|
                0 <= i < spec_lines(s, pos as int).len() ==> spec_lines(s, 0)[out.deep_view().len()
                    + i] == spec_lines(s, pos as int)[i],
        decreases n - pos,
    {
        let mut brk: usize = pos;
        while brk < n && v[brk] != '\n'
            invariant
                pos <= brk <= n,
                n == s.len(),
                v@ == s,
                line_break(s, pos as int) == line_break(s, brk as int),
            decreases n - brk,
        {
            brk = brk + 1;
        }
        proof {
            lemma_line_break_bounds(s, pos as int);
        }
        let end: usize = if brk > pos && v[brk - 1] == '\r' {
            brk - 1
        } else {
            brk
        };
        let mut line = prefix.clone();
        let mut k: usize = pos;
        while k < end
            invariant
                pos <= k <= end <= n,
                n == s.len(),
                v@ == s,
                line@ == prefix@ + s.subrange(pos as int, k as int),
            decreases end - k,
        {
            let ghost prev = line@;
            line.push(v[k]);
            proof {
                assert(line@ =~= prefix@ + s.subrange(pos as int, k + 1 as int));
            }
            k = k + 1;
        }
        proof {
            assert(line@ =~= prefix@ + line_body(s, pos as int, brk as int));
        }
        let ghost out_len = out@.len();
        let ghost here = spec_lines(s, pos as int);
        let ghost old_out = out@;
        let ghost old_dv = out.deep_view();
        let ghost line_v = line@;
        out.push(line);
        proof {
            assert(out@.len() == out_len + 1);
            assert(out@[out_len as int]@ == line_v);
            assert(out.deep_view()[out_len as int] == line_v);
            assert(here[0] == line_body(s, pos as int, brk as int));
            assert(spec_lines(s, 0)[out_len as int + 0] == here[0]);
            assert forall|i: int| 0 <= i < out@.len() implies out.deep_view()[i] == prefix@
                + spec_lines(s, 0)[i] by {
                if i < out_len {
                    assert(out@[i] == old_out[i]);
                    assert(out.deep_view()[i] == out@[i]@);
                    assert(old_dv[i] == old_out[i]@);
                } else {
                    assert(out.deep_view()[i] == line_v);
                }
            }
            if brk < n {
                assert(here.skip(1) =~= spec_lines(s, brk + 1 as int));
                assert forall|i: int| 0 <= i < spec_lines(s, brk + 1 as int).len() implies
                    spec_lines(s, 0)[out_len + 1 + i] == #[trigger] spec_lines(
                    s,
                    brk + 1 as int,
                )[i] by {
                    assert(spec_lines(s, 0)[out_len + (1 + i)] == here[1 + i]);
                    assert(here[1 + i] == here.skip(1)[i]);
                }
            } else {
                assert(here.len() == 1);
            }
        }
        if brk == n {
            pos = n;
            proof {
                assert(spec_lines(s, pos as int) =~= Seq::<Seq<char>>::empty());
            }
        } else {
            pos = brk + 1;
        }
    }
    proof {
        assert(spec_lines(s, pos as int) =~= Seq::<Seq<char>>::empty());
    }
    out
}

/// Where appending lands, mirroring the host-side buffer's policy:
/// when the buffer would overflow, the older half is trimmed away and
/// the cursor lands past the survivors and the new lines; otherwise
/// the cursor just moves down.
pub fn append_plan(line_count: i64, lines_cnt: i64, max_lines: i64) -> (r: (Option<i64>, i64))
    requires
        0 <= line_count,
        0 <= lines_cnt,
        0 <= max_lines,
        line_count + lines_cnt <= i64::MAX,
        max_lines + lines_cnt <= i64::MAX,
    ensures
        line_count + lines_cnt > max_lines ==> (r.0 matches Some(t) && t as int == max_lines as int
            / 2) && r.1 as int == max_lines - max_lines as int / 2 + lines_cnt,
        line_count + lines_cnt <= max_lines ==> r.0 is None && r.1 as int == line_count
            + lines_cnt,
{
    if line_count + lines_cnt > max_lines {
        let trim_cnt = max_lines / 2;
        (Some(trim_cnt), max_lines - trim_cnt + lines_cnt)
    } else {
        (None, line_count + lines_cnt)
    }
}

} // verus!
