//! The reports that the launcher shows: sections of script output and logs, with the user's
//! keys blotted out.

use vstd::prelude::*;

use crate::text::{
    chars_of, is_space, lemma_trim_empty, trim, trim_span, trimmed, utf8_len, utf8_len_at_least,
};

verus! {

/// `body` with the section `title` added: a `== title ==` header and the trimmed contents,
/// parted from what came before by a blank line. Empty contents add nothing.
pub open spec fn with_section(body: Seq<char>, title: Seq<char>, contents: Seq<char>) -> Seq<
    char,
> {
    let c = trim(contents);
    if c.len() == 0 {
        body
    } else if body.len() == 0 {
        "== "@ + title + " ==\n"@ + c
    } else {
        body + "\n\n"@ + "== "@ + title + " ==\n"@ + c
    }
}

/// Adds the section `title` with `contents` to `body`, unless the trimmed contents are empty.
pub fn push_section(body: &mut String, title: &str, contents: &str)
    ensures
        final(body)@ == with_section(old(body)@, title@, contents@),
{
    let v = chars_of(contents);
    let (a, b) = trim_span(&v, 0, v.len());
    assert(v@.subrange(0, v@.len() as int) =~= contents@);
    if a == b {
        return;
    }
    if body.as_str().unicode_len() != 0 {
        body.append("\n\n");
    }
    body.append("== ");
    body.append(title);
    body.append(" ==\n");
    body.append(contents.substring_char(a, b));
}

/// `s` with each occurrence of `pat` replaced by `rep`, scanning from the left and resuming
/// after each replaced occurrence.
pub open spec fn replace_all(s: Seq<char>, pat: Seq<char>, rep: Seq<char>) -> Seq<char>
    decreases s.len(),
{
    if s.len() == 0 {
        seq![]
    } else if pat.len() > 0 && pat.len() <= s.len() && s.take(pat.len() as int) == pat {
        rep + replace_all(s.skip(pat.len() as int), pat, rep)
    } else {
        seq![s[0]] + replace_all(s.drop_first(), pat, rep)
    }
}

/// Tells whether `pat` stands in `v` at position `i`.
fn occurs_at(v: &Vec<char>, i: usize, pat: &Vec<char>) -> (r: bool)
    requires
        i <= v.len(),
    ensures
        r == (pat.len() <= v.len() - i && v@.subrange(i as int, i + pat.len()) == pat@),
{
    let m = pat.len();
    if m > v.len() - i {
        return false;
    }
    let mut k: usize = 0;
    while k < m
        invariant
            m == pat.len(),
            i + m <= v.len(),
            k <= m,
            forall|j: int| 0 <= j < k ==> v@[i + j] == pat@[j],
        decreases m - k,
    {
        if v[i + k] != pat[k] {
            assert(v@.subrange(i as int, i + m)[k as int] != pat@[k as int]);
            return false;
        }
        k += 1;
    }
    assert(v@.subrange(i as int, i + m) =~= pat@);
    true
}

/// `text` with each occurrence of `pat` replaced by `rep`; `pat` is not empty.
pub fn replace_text(text: &str, pat: &str, rep: &str) -> (r: String)
    requires
        pat@.len() > 0,
    ensures
        r@ == replace_all(text@, pat@, rep@),
{
    let v = chars_of(text);
    let p = chars_of(pat);
    let n = v.len();
    let m = p.len();
    let mut out = String::new();
    let mut last: usize = 0;
    let mut i: usize = 0;
    assert(v@.skip(0) =~= v@);
    assert(v@.subrange(0, 0) =~= Seq::<char>::empty());
    while i < n
        invariant
            n == v.len(),
            v@ == text@,
            p@ == pat@,
            m == p.len(),
            m > 0,
            last <= i <= n,
            replace_all(v@, p@, rep@) == out@ + v@.subrange(last as int, i as int) + replace_all(
                v@.skip(i as int),
                p@,
                rep@,
            ),
        decreases n - i,
    {
        let ghost rest = v@.skip(i as int);
        if occurs_at(&v, i, &p) {
            assert(rest.take(m as int) =~= v@.subrange(i as int, i + m));
            assert(rest.skip(m as int) =~= v@.skip(i + m));
            let ghost before = out@;
            let ghost old_last = last;
            let ghost old_i = i;
            assert(replace_all(rest, p@, rep@) == rep@ + replace_all(v@.skip(i + m), p@, rep@));
            out.append(text.substring_char(last, i));
            out.append(rep);
            assert(out@ == before + v@.subrange(old_last as int, old_i as int) + rep@);
            i = i + m;
            last = i;
            assert(v@.subrange(last as int, i as int) =~= Seq::<char>::empty());
            assert(out@ + v@.subrange(last as int, i as int) + replace_all(v@.skip(i as int), p@, rep@)
                =~= before + v@.subrange(old_last as int, old_i as int) + (rep@ + replace_all(v@.skip(i as int), p@, rep@)));
        } else {
            if m <= n - i {
                assert(rest.take(m as int) =~= v@.subrange(i as int, i + m));
            }
            assert(rest.drop_first() =~= v@.skip(i + 1));
            assert(replace_all(rest, p@, rep@) == seq![rest[0]] + replace_all(
                v@.skip(i + 1),
                p@,
                rep@,
            ));
            let ghost old_i = i;
            assert(v@.subrange(last as int, i + 1) =~= v@.subrange(last as int, i as int) + seq![
                rest[0],
            ]);
            i = i + 1;
            assert(out@ + v@.subrange(last as int, i as int) + replace_all(v@.skip(i as int), p@, rep@)
                =~= out@ + v@.subrange(last as int, old_i as int) + (seq![rest[0]] + replace_all(v@.skip(i as int), p@, rep@)));
        }
    }
    out.append(text.substring_char(last, n));
    assert(v@.skip(n as int) =~= Seq::<char>::empty());
    assert(out@ =~= replace_all(v@, p@, rep@));
    out
}


/// What stands in a report for a blotted-out key.
pub open spec fn redaction_mark() -> Seq<char> {
    "[redacted]"@
}

/// `text` with each key of `secrets` blotted out, one key after the other; a key is trimmed
/// first, and one of fewer than six bytes is left alone.
pub open spec fn redact(text: Seq<char>, secrets: Seq<Seq<char>>) -> Seq<char>
    decreases secrets.len(),
{
    if secrets.len() == 0 {
        text
    } else {
        let t = redact(text, secrets.drop_last());
        let s = trim(secrets.last());
        if utf8_len(s) >= 6 {
            replace_all(t, s, redaction_mark())
        } else {
            t
        }
    }
}

/// The texts of the keys.
pub open spec fn texts_of(secrets: Seq<String>) -> Seq<Seq<char>> {
    secrets.map_values(|s: String| s@)
}

/// Blots the keys `secrets` out of `text`.
pub fn redact_secrets(text: String, secrets: &[String]) -> (r: String)
    ensures
        r@ == redact(text@, texts_of(secrets@)),
{
    let ghost ss = texts_of(secrets@);
    let ghost original = text@;
    let mut text = text;
    let n = secrets.len();
    assert(ss.take(0) =~= Seq::<Seq<char>>::empty());
    for i in 0..n
        invariant
            n == secrets@.len(),
            ss == texts_of(secrets@),
            text@ == redact(original, ss.take(i as int)),
    {
        assert(ss.take(i + 1).drop_last() =~= ss.take(i as int));
        assert(ss.take(i + 1).last() == secrets@[i as int]@);
        let secret = trimmed(secrets[i].as_str());
        if utf8_len_at_least(secret.as_str(), 6) {
            proof {
                reveal_strlit("[redacted]");
                if secret@.len() == 0 {
                    assert(utf8_len(secret@) == 0);
                }
            }
            text = replace_text(text.as_str(), secret.as_str(), "[redacted]");
        }
    }
    assert(ss.take(n as int) =~= ss);
    text
}

/// The hint shown with the logs when a service failed to start.
pub open spec fn failure_hint(logs: Seq<char>) -> Seq<char> {
    "服务启动失败时优先查看 data/logs/*.err。\n\n"@ + logs
}

/// The hint shown with the log report `logs` when a service failed to start.
pub fn failure_log_hint(logs: &str) -> (r: String)
    ensures
        r@ == failure_hint(logs@),
{
    let mut hint = String::from_str("服务启动失败时优先查看 data/logs/*.err。\n\n");
    hint.append(logs);
    hint
}

/// The report of a run of the service script: its output and error output as sections, then
/// the logs where the run failed; a note where all is empty; the keys blotted out.
pub open spec fn action_report_text(
    stdout: Seq<char>,
    stderr: Seq<char>,
    failure_logs: Option<Seq<char>>,
    secrets: Seq<Seq<char>>,
) -> Seq<char> {
    let body = with_section(with_section(seq![], "stdout"@, stdout), "stderr"@, stderr);
    let body = match failure_logs {
        Some(logs) => with_section(body, "logs"@, logs),
        None => body,
    };
    let body = if trim(body).len() == 0 {
        body + "命令已执行，无输出。"@
    } else {
        body
    };
    redact(body, secrets)
}

/// Builds the report of a run of the service script; `failure_logs` holds the logs to show
/// when the run failed.
pub fn action_report(
    stdout: &str,
    stderr: &str,
    failure_logs: Option<&str>,
    secrets: &[String],
) -> (r: String)
    ensures
        r@ == action_report_text(
            stdout@,
            stderr@,
            match failure_logs {
                Some(l) => Some(l@),
                None => None,
            },
            texts_of(secrets@),
        ),
{
    let mut body = String::new();
    push_section(&mut body, "stdout", stdout);
    push_section(&mut body, "stderr", stderr);
    match failure_logs {
        Some(logs) => push_section(&mut body, "logs", logs),
        None => {},
    }
    let t = trimmed(body.as_str());
    if t.as_str().unicode_len() == 0 {
        body.append("命令已执行，无输出。");
    }
    redact_secrets(body, secrets)
}

/// `body` with the sections `sections` added in order.
pub open spec fn with_sections(body: Seq<char>, sections: Seq<(Seq<char>, Seq<char>)>) -> Seq<
    char,
>
    decreases sections.len(),
{
    if sections.len() == 0 {
        body
    } else {
        let (title, contents) = sections.last();
        with_section(with_sections(body, sections.drop_last()), title, contents)
    }
}

/// The texts of named sections.
pub open spec fn section_texts(sections: Seq<(String, String)>) -> Seq<(Seq<char>, Seq<char>)> {
    sections.map_values(|p: (String, String)| (p.0@, p.1@))
}

/// The report of the log files: a section for each file, or a note naming the log folder where
/// there is nothing to show; the keys blotted out.
pub open spec fn log_report_text(
    sections: Seq<(Seq<char>, Seq<char>)>,
    log_dir: Seq<char>,
    secrets: Seq<Seq<char>>,
) -> Seq<char> {
    let body = with_sections(seq![], sections);
    let body = if trim(body).len() == 0 {
        "未找到日志文件："@ + log_dir
    } else {
        body
    };
    redact(body, secrets)
}

/// Builds the report of the log files from the name and contents of each file found.
pub fn log_report(sections: &[(String, String)], log_dir: &str, secrets: &[String]) -> (r: String)
    ensures
        r@ == log_report_text(section_texts(sections@), log_dir@, texts_of(secrets@)),
{
    let ghost secs = section_texts(sections@);
    let mut body = String::new();
    let n = sections.len();
    assert(secs.take(0) =~= Seq::<(Seq<char>, Seq<char>)>::empty());
    for i in 0..n
        invariant
            n == sections@.len(),
            secs == section_texts(sections@),
            body@ == with_sections(seq![], secs.take(i as int)),
    {
        assert(secs.take(i + 1).drop_last() =~= secs.take(i as int));
        assert(secs.take(i + 1).last() == (sections@[i as int].0@, sections@[i as int].1@));
        push_section(&mut body, sections[i].0.as_str(), sections[i].1.as_str());
    }
    assert(secs.take(n as int) =~= secs);
    let t = trimmed(body.as_str());
    if t.as_str().unicode_len() == 0 {
        body = String::from_str("未找到日志文件：");
        body.append(log_dir);
    }
    redact_secrets(body, secrets)
}


/// `pat` stands somewhere in `s`.
pub open spec fn occurs_in(pat: Seq<char>, s: Seq<char>) -> bool {
    exists|i: int|
        0 <= i && i + pat.len() <= s.len() && #[trigger] s.subrange(i, i + pat.len()) == pat
}

/// Replacing a text that does not occur changes nothing.
pub proof fn lemma_replace_absent(s: Seq<char>, pat: Seq<char>, rep: Seq<char>)
    requires
        !occurs_in(pat, s),
    ensures
        replace_all(s, pat, rep) == s,
    decreases s.len(),
{
    if s.len() > 0 {
        if pat.len() > 0 && pat.len() <= s.len() && s.take(pat.len() as int) == pat {
            assert(s.subrange(0int, 0int + pat.len()) == pat);
            assert(occurs_in(pat, s));
        }
        assert(!occurs_in(pat, s.drop_first())) by {
            if occurs_in(pat, s.drop_first()) {
                let i = choose|i: int|
                    0 <= i && i + pat.len() <= s.drop_first().len() && #[trigger] s.drop_first().subrange(
                        i,
                        i + pat.len(),
                    ) == pat;
                assert(s.subrange(i + 1, i + 1 + pat.len()) =~= s.drop_first().subrange(
                    i,
                    i + pat.len(),
                ));
            }
        }
        lemma_replace_absent(s.drop_first(), pat, rep);
        assert(seq![s[0]] + s.drop_first() =~= s);
    } else {
        assert(s =~= Seq::<char>::empty());
    }
}

/// A report in which none of the keys occurs, trimmed, is left as it is.
pub proof fn law_redact_without_keys(text: Seq<char>, secrets: Seq<Seq<char>>)
    requires
        forall|k: int| 0 <= k < secrets.len() ==> !occurs_in(trim(#[trigger] secrets[k]), text),
    ensures
        redact(text, secrets) == text,
    decreases secrets.len(),
{
    if secrets.len() > 0 {
        let init = secrets.drop_last();
        assert forall|k: int| 0 <= k < init.len() implies !occurs_in(trim(#[trigger] init[k]), text) by {
            assert(init[k] == secrets[k]);
        }
        law_redact_without_keys(text, init);
        assert(!occurs_in(trim(secrets[secrets.len() - 1]), text));
        lemma_replace_absent(text, trim(secrets.last()), redaction_mark());
    }
}


/// While no `[` shows, the replaced text agrees with the text: replacing starts every
/// replacement with `[`.
pub proof fn lemma_replace_prefix(t: Seq<char>, p: Seq<char>, j: int)
    requires
        p.len() > 0,
        0 <= j <= replace_all(t, p, redaction_mark()).len(),
        forall|i: int| 0 <= i < j ==> replace_all(t, p, redaction_mark())[i] != '[',
    ensures
        j <= t.len(),
        replace_all(t, p, redaction_mark()).take(j) == t.take(j),
    decreases t.len(),
{
    let r = redaction_mark();
    let out = replace_all(t, p, r);
    reveal_strlit("[redacted]");
    if t.len() == 0 {
        assert(out.take(j) =~= t.take(j));
    } else if p.len() <= t.len() && t.take(p.len() as int) == p {
        if j > 0 {
            assert(out[0] == r[0]);
        }
        assert(out.take(j) =~= t.take(j));
    } else if j > 0 {
        let rest = t.drop_first();
        let out2 = replace_all(rest, p, r);
        assert(out == seq![t[0]] + out2);
        assert forall|i: int| 0 <= i < j - 1 implies out2[i] != '[' by {
            assert(out[i + 1] == out2[i]);
        }
        lemma_replace_prefix(rest, p, j - 1);
        assert(out.take(j) =~= seq![t[0]] + out2.take(j - 1));
        assert(t.take(j) =~= seq![t[0]] + rest.take(j - 1));
    } else {
        assert(out.take(j) =~= t.take(j));
    }
}

/// A key that can be blotted out for good: at least six bytes, no brackets, and not a piece
/// of the word `redacted`.
pub open spec fn is_redactable(s: Seq<char>) -> bool {
    &&& utf8_len(s) >= 6
    &&& forall|i: int| 0 <= i < s.len() ==> s[i] != '[' && s[i] != ']'
    &&& !occurs_in(s, "redacted"@)
}

/// Replacing `p` leaves no `s` behind where `s` is `p` itself or did not occur before, and
/// `s` has no brackets and is no piece of `redacted`.
pub proof fn lemma_replace_leaves_none(t: Seq<char>, p: Seq<char>, s: Seq<char>)
    requires
        p.len() > 0,
        s.len() > 0,
        forall|i: int| 0 <= i < s.len() ==> s[i] != '[' && s[i] != ']',
        !occurs_in(s, "redacted"@),
        s == p || !occurs_in(s, t),
    ensures
        !occurs_in(s, replace_all(t, p, redaction_mark())),
    decreases t.len(),
{
    let r = redaction_mark();
    let out = replace_all(t, p, r);
    let n = s.len() as int;
    reveal_strlit("[redacted]");
    reveal_strlit("redacted");
    assert(r.len() == 10);
    if t.len() == 0 {
        assert(out.len() == 0);
    } else if p.len() <= t.len() && t.take(p.len() as int) == p {
        let m = p.len() as int;
        let rest = t.skip(m);
        let out2 = replace_all(rest, p, r);
        assert(out == r + out2);
        if s != p {
            assert(!occurs_in(s, rest)) by {
                if occurs_in(s, rest) {
                    let i = choose|i: int|
                        0 <= i && i + s.len() <= rest.len() && #[trigger] rest.subrange(
                            i,
                            i + s.len(),
                        ) == s;
                    assert(t.subrange(i + m, i + m + s.len()) =~= rest.subrange(i, i + s.len()));
                }
            }
        }
        lemma_replace_leaves_none(rest, p, s);
        if occurs_in(s, out) {
            let i = choose|i: int|
                0 <= i && i + s.len() <= out.len() && #[trigger] out.subrange(i, i + s.len())
                    == s;
            if i >= 10 {
                assert(out2.subrange(i - 10, i - 10 + n) =~= out.subrange(i, i + n));
            } else if i == 0 {
                assert(s[0] == out[0]);
            } else if i + n <= 9 {
                assert("redacted"@.subrange(i - 1, i - 1 + n) =~= out.subrange(i, i + n));
            } else {
                assert(s[9 - i] == out[9]);
            }
        }
    } else {
        let rest = t.drop_first();
        let out2 = replace_all(rest, p, r);
        assert(out == seq![t[0]] + out2);
        if s != p {
            assert(!occurs_in(s, rest)) by {
                if occurs_in(s, rest) {
                    let i = choose|i: int|
                        0 <= i && i + s.len() <= rest.len() && #[trigger] rest.subrange(
                            i,
                            i + s.len(),
                        ) == s;
                    assert(t.subrange(i + 1, i + 1 + s.len()) =~= rest.subrange(i, i + s.len()));
                }
            }
        }
        lemma_replace_leaves_none(rest, p, s);
        if occurs_in(s, out) {
            let i = choose|i: int|
                0 <= i && i + s.len() <= out.len() && #[trigger] out.subrange(i, i + s.len())
                    == s;
            if i >= 1 {
                assert(out2.subrange(i - 1, i - 1 + n) =~= out.subrange(i, i + n));
            } else {
                assert forall|k: int| 0 <= k < n - 1 implies out2[k] != '[' by {
                    assert(out2[k] == s[k + 1]);
                }
                lemma_replace_prefix(rest, p, n - 1);
                assert(t.subrange(0, n) =~= seq![t[0]] + rest.take(n - 1));
                assert(s =~= seq![t[0]] + out2.take(n - 1));
                assert(t.subrange(0int, 0int + n) == s);
                if s == p {
                    assert(t.take(p.len() as int) == p);
                }
            }
        }
    }
}

/// After blotting out, no key that can be blotted out for good (trimmed, at least six bytes,
/// no brackets, no piece of `redacted`) occurs in the report any more.
pub proof fn law_redact_removes_keys(text: Seq<char>, secrets: Seq<Seq<char>>)
    ensures
        forall|k: int|
            0 <= k < secrets.len() && is_redactable(trim(#[trigger] secrets[k])) ==> !occurs_in(
                trim(secrets[k]),
                redact(text, secrets),
            ),
    decreases secrets.len(),
{
    if secrets.len() > 0 {
        let init = secrets.drop_last();
        law_redact_removes_keys(text, init);
        let t = redact(text, init);
        let last = trim(secrets.last());
        assert forall|k: int|
            0 <= k < secrets.len() && is_redactable(trim(#[trigger] secrets[k])) implies !occurs_in(
            trim(secrets[k]),
            redact(text, secrets),
        ) by {
            let sk = trim(secrets[k]);
            if sk.len() == 0 {
                assert(utf8_len(sk) == 0);
            }
            if k < secrets.len() - 1 {
                assert(init[k] == secrets[k]);
                assert(!occurs_in(sk, t));
            }
            if utf8_len(last) >= 6 {
                if last.len() == 0 {
                    assert(utf8_len(last) == 0);
                }
                lemma_replace_leaves_none(t, last, sk);
            }
        }
    }
}


/// The status line shown when a task has ended: its title and whether it succeeded.
pub open spec fn task_status_text(title: Seq<char>, success: bool) -> Seq<char> {
    "服务状态："@ + title + if success {
        "完成"@
    } else {
        "失败"@
    }
}

/// Builds the status line shown when the task `title` has ended.
pub fn task_status(title: &str, success: bool) -> (r: String)
    ensures
        r@ == task_status_text(title@, success),
{
    let mut line = String::from_str("服务状态：");
    line.append(title);
    if success {
        line.append("完成");
    } else {
        line.append("失败");
    }
    line
}


/// Adding a section keeps the body as it was and puts after it, behind a blank line when the
/// body was not empty, the header `== title ==` and the whole trimmed contents; blank contents
/// add nothing.
pub proof fn law_section_added(body: Seq<char>, title: Seq<char>, contents: Seq<char>)
    ensures
        with_section(body, title, contents).len() >= body.len(),
        with_section(body, title, contents).take(body.len() as int) == body,
        trim(contents).len() == 0 ==> with_section(body, title, contents) == body,
        trim(contents).len() > 0 && body.len() == 0 ==> with_section(body, title, contents)
            == "== "@ + title + " ==\n"@ + trim(contents),
        trim(contents).len() > 0 && body.len() > 0 ==> with_section(body, title, contents)
            == body + "\n\n"@ + "== "@ + title + " ==\n"@ + trim(contents),
{
    let r = with_section(body, title, contents);
    if trim(contents).len() > 0 && body.len() > 0 {
        assert(r.take(body.len() as int) =~= body);
    } else {
        assert(r.take(body.len() as int) =~= body);
    }
}

/// The sections added first stay in front: the text of the first `j` sections begins the text
/// of them all.
pub proof fn law_sections_prefix(body: Seq<char>, secs: Seq<(Seq<char>, Seq<char>)>, j: int)
    requires
        0 <= j <= secs.len(),
    ensures
        with_sections(body, secs).len() >= with_sections(body, secs.take(j)).len(),
        with_sections(body, secs).take(with_sections(body, secs.take(j)).len() as int)
            == with_sections(body, secs.take(j)),
    decreases secs.len(),
{
    if j == secs.len() {
        assert(secs.take(j) =~= secs);
        assert(with_sections(body, secs).take(with_sections(body, secs).len() as int)
            =~= with_sections(body, secs));
    } else {
        let init = secs.drop_last();
        assert(init.take(j) =~= secs.take(j));
        law_sections_prefix(body, init, j);
        let (t, c) = secs.last();
        let a = with_sections(body, init);
        law_section_added(a, t, c);
        let b = with_sections(body, secs.take(j));
        assert(with_sections(body, secs).take(b.len() as int) =~= a.take(b.len() as int));
    }
}

/// Each section with contents shows in order: the text of all sections begins with the text of
/// the sections before it, then (behind a blank line when that text is not empty) its header and
/// its whole trimmed contents.
pub proof fn law_section_in_order(body: Seq<char>, secs: Seq<(Seq<char>, Seq<char>)>, k: int)
    requires
        0 <= k < secs.len(),
        trim(secs[k].1).len() > 0,
    ensures
        ({
            let before = with_sections(body, secs.take(k));
            let shown = before + (if before.len() == 0 {
                seq![]
            } else {
                "\n\n"@
            }) + "== "@ + secs[k].0 + " ==\n"@ + trim(secs[k].1);
            &&& with_sections(body, secs).len() >= shown.len()
            &&& with_sections(body, secs).take(shown.len() as int) == shown
        }),
{
    let before = with_sections(body, secs.take(k));
    let t1 = secs.take(k + 1);
    assert(t1.drop_last() =~= secs.take(k));
    assert(t1.last() == secs[k]);
    law_section_added(before, secs[k].0, secs[k].1);
    let shown = before + (if before.len() == 0 {
        seq![]
    } else {
        "\n\n"@
    }) + "== "@ + secs[k].0 + " ==\n"@ + trim(secs[k].1);
    assert(with_sections(body, t1) =~= shown);
    law_sections_prefix(body, secs, k + 1);
}

/// A text holding `=` is not blank.
proof fn lemma_not_blank_with_equals(s: Seq<char>, i: int)
    requires
        0 <= i < s.len(),
        s[i] == '=',
    ensures
        trim(s).len() > 0,
{
    if trim(s).len() == 0 {
        lemma_trim_empty(s);
        assert(is_space(s[i]));
    }
}

/// The log report shows each log file with contents, in order: before the keys are blotted
/// out, it begins with the sections of the files before it, then that file's header and whole
/// trimmed contents. Where no file has contents, it is the note naming the log folder. The keys
/// are blotted out of that text.
pub proof fn law_log_report(
    secs: Seq<(Seq<char>, Seq<char>)>,
    log_dir: Seq<char>,
    secrets: Seq<Seq<char>>,
)
    ensures
        log_report_text(secs, log_dir, secrets) == redact(
            log_report_text(secs, log_dir, seq![]),
            secrets,
        ),
        forall|k: int|
            0 <= k < secs.len() && trim(#[trigger] secs[k].1).len() > 0 ==> ({
                let before = with_sections(seq![], secs.take(k));
                let shown = before + (if before.len() == 0 {
                    seq![]
                } else {
                    "\n\n"@
                }) + "== "@ + secs[k].0 + " ==\n"@ + trim(secs[k].1);
                &&& log_report_text(secs, log_dir, seq![]).len() >= shown.len()
                &&& log_report_text(secs, log_dir, seq![]).take(shown.len() as int) == shown
            }),
        (forall|k: int| 0 <= k < secs.len() ==> trim(#[trigger] secs[k].1).len() == 0)
            ==> log_report_text(secs, log_dir, seq![]) == "未找到日志文件："@ + log_dir,
{
    let e: Seq<char> = seq![];
    assert forall|k: int|
        0 <= k < secs.len() && trim(#[trigger] secs[k].1).len() > 0 implies ({
        let before = with_sections(e, secs.take(k));
        let shown = before + (if before.len() == 0 {
            seq![]
        } else {
            "\n\n"@
        }) + "== "@ + secs[k].0 + " ==\n"@ + trim(secs[k].1);
        &&& log_report_text(secs, log_dir, seq![]).len() >= shown.len()
        &&& log_report_text(secs, log_dir, seq![]).take(shown.len() as int) == shown
    }) by {
        law_section_in_order(e, secs, k);
        let before = with_sections(e, secs.take(k));
        let sep: Seq<char> = if before.len() == 0 {
            seq![]
        } else {
            "\n\n"@
        };
        let shown = before + sep + "== "@ + secs[k].0 + " ==\n"@ + trim(secs[k].1);
        reveal_strlit("== ");
        let all = with_sections(e, secs);
        let i: int = before.len() as int + sep.len() as int + 1;
        assert(shown[i] == '=');
        assert(all[i] == shown[i]);
        lemma_not_blank_with_equals(all, i);
    }
    if forall|k: int| 0 <= k < secs.len() ==> trim(#[trigger] secs[k].1).len() == 0 {
        lemma_sections_blank(e, secs);
        assert(trim(e).len() == 0);
    }
}

/// Sections that are all blank add nothing.
proof fn lemma_sections_blank(body: Seq<char>, secs: Seq<(Seq<char>, Seq<char>)>)
    requires
        forall|k: int| 0 <= k < secs.len() ==> trim(#[trigger] secs[k].1).len() == 0,
    ensures
        with_sections(body, secs) == body,
    decreases secs.len(),
{
    if secs.len() > 0 {
        let init = secs.drop_last();
        assert forall|k: int| 0 <= k < init.len() implies trim(#[trigger] init[k].1).len() == 0 by {
            assert(init[k] == secs[k]);
        }
        lemma_sections_blank(body, init);
        assert(trim(secs[secs.len() - 1].1).len() == 0);
    }
}

/// The report of a run shows, before the keys are blotted out: the output section first where
/// the trimmed output is not empty; the error output section next (behind a blank line when the
/// output section is there) where the trimmed error output is not empty, whatever the output
/// holds; the logs section last where logs are given and not blank; and only the note where all
/// of these are blank. The keys are blotted out of that text.
pub proof fn law_action_report(
    stdout: Seq<char>,
    stderr: Seq<char>,
    failure_logs: Option<Seq<char>>,
    secrets: Seq<Seq<char>>,
)
    ensures
        action_report_text(stdout, stderr, failure_logs, secrets) == redact(
            action_report_text(stdout, stderr, failure_logs, seq![]),
            secrets,
        ),
        ({
            let r = action_report_text(stdout, stderr, failure_logs, seq![]);
            let out = "== stdout ==\n"@ + trim(stdout);
            let err = "== stderr ==\n"@ + trim(stderr);
            let first: Seq<char> = if trim(stdout).len() > 0 {
                out + "\n\n"@
            } else {
                seq![]
            };
            &&& trim(stdout).len() > 0 ==> r.len() >= out.len() && r.take(out.len() as int) == out
            &&& trim(stderr).len() > 0 ==> r.len() >= (first + err).len() && r.take(
                (first + err).len() as int,
            ) == first + err
            &&& (failure_logs matches Some(l) && trim(l).len() > 0) ==> ({
                let logs = "== logs ==\n"@ + trim(failure_logs->0);
                r.len() >= logs.len() && r.skip(r.len() - logs.len()) == logs
            })
            &&& (trim(stdout).len() == 0 && trim(stderr).len() == 0 && !(failure_logs matches Some(
                l,
            ) && trim(l).len() > 0)) ==> r == "命令已执行，无输出。"@
        }),
{
    reveal_strlit("== ");
    reveal_strlit("stdout");
    reveal_strlit(" ==\n");
    reveal_strlit("== stdout ==\n");
    reveal_strlit("stderr");
    reveal_strlit("== stderr ==\n");
    reveal_strlit("logs");
    reveal_strlit("== logs ==\n");
    let e: Seq<char> = seq![];
    let b1 = with_section(e, "stdout"@, stdout);
    let b2 = with_section(b1, "stderr"@, stderr);
    let b3 = match failure_logs {
        Some(l) => with_section(b2, "logs"@, l),
        None => b2,
    };
    law_section_added(e, "stdout"@, stdout);
    law_section_added(b1, "stderr"@, stderr);
    if let Some(l) = failure_logs {
        law_section_added(b2, "logs"@, l);
    }
    let r = action_report_text(stdout, stderr, failure_logs, seq![]);
    let out = "== stdout ==\n"@ + trim(stdout);
    let err = "== stderr ==\n"@ + trim(stderr);
    assert("== "@ + "stdout"@ + " ==\n"@ =~= "== stdout ==\n"@);
    assert("== "@ + "stderr"@ + " ==\n"@ =~= "== stderr ==\n"@);
    assert("== "@ + "logs"@ + " ==\n"@ =~= "== logs ==\n"@);
    if b3.len() > 0 {
        assert(b3[1] == '=') by {
            if b1.len() > 0 {
                assert(b3[1] == b1[1]);
            } else if b2.len() > 0 {
                assert(b3[1] == b2[1]);
            }
        }
        lemma_not_blank_with_equals(b3, 1);
        assert(r == b3);
    } else {
        assert(trim(b3).len() == 0);
    }
    if trim(stdout).len() > 0 {
        assert(b1 == out);
        assert(b3.take(b1.len() as int) =~= b1) by {
            assert(b2.take(b1.len() as int) == b1);
        }
    }
    if trim(stderr).len() > 0 {
        let first: Seq<char> = if trim(stdout).len() > 0 {
            out + "\n\n"@
        } else {
            seq![]
        };
        assert(b2 =~= first + err);
        assert(b3.take(b2.len() as int) =~= b2);
    }
}

} // verus!
