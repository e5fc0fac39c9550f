//! What the launcher writes to `.env` is what it reads back.

use vstd::prelude::*;

use crate::env::{
    apply_line, apply_lines, escape, escape_char, find_value, forces_quotes, format_value,
    is_managed_key, is_managed_line, jwt_secret_for, key_value_lines, load_env, load_lines, parse_line,
    render_env,
    rendered_lines, secret_is_reusable, unmanaged_lines, unquote, EnvSettings, ALLOW_NETWORK_KEY,
    IMAGE_GENERATION_KEY, JWT_SECRET_KEY, TEXT_MODEL_KEY, VIDEO_GENERATION_KEY,
};
use crate::secret::{hex_digit, is_generated_secret, is_v4_bytes, lower_hex};
use crate::text::{
    first_index, is_space, lemma_first_index, lemma_first_index_at, lemma_lines_of_text,
    lemma_lines_without_newline, lemma_trim_after_trim_end, lemma_trim_end_concat,
    lemma_trim_idempotent, lemma_trim_strip_cr, lemma_trim_unchanged, lemma_trim_within,
    lemma_utf8_len_at_least_len, lines, strip_cr, text_of_lines, trim, trim_end, trim_start,
    utf8_len,
};

verus! {

/// A name that can stand as a key at the start of a line: not empty, no `=`, no line feed,
/// neither starting nor ending with whitespace, not starting with `#`.
pub open spec fn is_plain_key(k: Seq<char>) -> bool {
    &&& k.len() > 0
    &&& !is_space(k[0])
    &&& k[0] != '#'
    &&& !is_space(k.last())
    &&& forall|j: int| 0 <= j < k.len() ==> k[j] != '=' && k[j] != '\n'
}

/// The line `k=w` sets the key `k` to `w`, trimmed and unquoted.
pub proof fn lemma_parse_key_line(k: Seq<char>, w: Seq<char>)
    requires
        is_plain_key(k),
    ensures
        parse_line(k + seq!['='] + w) == Some((k, unquote(trim(w)))),
{
    let a = k + seq!['='];
    let line = a + w;
    assert(k + seq!['='] + w == line);
    assert(line[0] == k[0]);
    assert(trim_start(line) == line);
    lemma_trim_end_concat(a, w);
    let t = a + trim_end(w);
    assert(trim(line) == t);
    let n = k.len() as int;
    assert(t[n] == '=');
    assert forall|j: int| 0 <= j < n implies t[j] != '=' by {
        assert(t[j] == k[j]);
    }
    lemma_first_index_at(t, '=', n);
    assert(t.take(n) =~= k);
    lemma_trim_unchanged(k);
    assert(t.skip(n + 1) =~= trim_end(w));
    lemma_trim_after_trim_end(w);
}

/// The names that the launcher writes are plain keys.
pub proof fn lemma_keys_are_plain()
    ensures
        is_plain_key(TEXT_MODEL_KEY@),
        is_plain_key(IMAGE_GENERATION_KEY@),
        is_plain_key(VIDEO_GENERATION_KEY@),
        is_plain_key(ALLOW_NETWORK_KEY@),
        is_plain_key(JWT_SECRET_KEY@),
        TEXT_MODEL_KEY@ != IMAGE_GENERATION_KEY@,
        TEXT_MODEL_KEY@ != VIDEO_GENERATION_KEY@,
        IMAGE_GENERATION_KEY@ != VIDEO_GENERATION_KEY@,
        ALLOW_NETWORK_KEY@ != TEXT_MODEL_KEY@,
        ALLOW_NETWORK_KEY@ != IMAGE_GENERATION_KEY@,
        ALLOW_NETWORK_KEY@ != VIDEO_GENERATION_KEY@,
        JWT_SECRET_KEY@ != TEXT_MODEL_KEY@,
        JWT_SECRET_KEY@ != IMAGE_GENERATION_KEY@,
        JWT_SECRET_KEY@ != VIDEO_GENERATION_KEY@,
        JWT_SECRET_KEY@ != ALLOW_NETWORK_KEY@,
{
    reveal_strlit("DEEPSEEK_API_KEY");
    reveal_strlit("IMAGE_GENERATION_API_KEY");
    reveal_strlit("VIDEO_GENERATION_API_KEY");
    reveal_strlit("BEE_ALLOW_NETWORK");
    reveal_strlit("BEE__JWT__SECRET");
    assert(TEXT_MODEL_KEY@[0] != IMAGE_GENERATION_KEY@[0]);
    assert(TEXT_MODEL_KEY@[0] != VIDEO_GENERATION_KEY@[0]);
    assert(IMAGE_GENERATION_KEY@[0] != VIDEO_GENERATION_KEY@[0]);
    assert(ALLOW_NETWORK_KEY@[0] != TEXT_MODEL_KEY@[0]);
    assert(ALLOW_NETWORK_KEY@[0] != IMAGE_GENERATION_KEY@[0]);
    assert(ALLOW_NETWORK_KEY@[0] != VIDEO_GENERATION_KEY@[0]);
    assert(JWT_SECRET_KEY@[0] != TEXT_MODEL_KEY@[0]);
    assert(JWT_SECRET_KEY@[0] != IMAGE_GENERATION_KEY@[0]);
    assert(JWT_SECRET_KEY@[0] != VIDEO_GENERATION_KEY@[0]);
    assert(JWT_SECRET_KEY@.len() != ALLOW_NETWORK_KEY@.len());
}


/// No line of `ls` holds a line feed.
pub open spec fn free_of_newlines(ls: Seq<Seq<char>>) -> bool {
    forall|k: int| 0 <= k < ls.len() ==> !(#[trigger] ls[k]).contains('\n')
}

/// Reading `a` and then `b` is reading `a + b`.
pub proof fn lemma_apply_concat(c: EnvSettings, a: Seq<Seq<char>>, b: Seq<Seq<char>>)
    ensures
        apply_lines(c, a + b) == apply_lines(apply_lines(c, a), b),
    decreases b.len(),
{
    if b.len() == 0 {
        assert(a + b =~= a);
    } else {
        assert((a + b).drop_last() =~= a + b.drop_last());
        assert((a + b).last() == b.last());
        lemma_apply_concat(c, a, b.drop_last());
    }
}

/// Reading one line.
pub proof fn lemma_apply_one(c: EnvSettings, l: Seq<char>)
    ensures
        apply_lines(c, seq![l]) == apply_line(c, l),
{
    assert(seq![l].drop_last() =~= Seq::<Seq<char>>::empty());
    assert(apply_lines(c, seq![l].drop_last()) == c);
    assert(seq![l].last() == l);
}

/// A final carriage return on any line changes nothing of what the lines set.
pub proof fn lemma_apply_strip_cr(c: EnvSettings, ls: Seq<Seq<char>>)
    ensures
        apply_lines(c, ls.map_values(|l: Seq<char>| strip_cr(l))) == apply_lines(c, ls),
    decreases ls.len(),
{
    if ls.len() > 0 {
        let m = ls.map_values(|l: Seq<char>| strip_cr(l));
        assert(m.drop_last() =~= ls.drop_last().map_values(|l: Seq<char>| strip_cr(l)));
        lemma_apply_strip_cr(c, ls.drop_last());
        lemma_trim_strip_cr(ls.last());
        assert(m.last() == strip_cr(ls.last()));
        assert(parse_line(m.last()) == parse_line(ls.last()));
    }
}

/// The lines that set no managed key come from `ls` and set none of the model keys.
pub proof fn lemma_unmanaged(c: EnvSettings, ls: Seq<Seq<char>>)
    requires
        free_of_newlines(ls),
    ensures
        free_of_newlines(unmanaged_lines(ls)),
        apply_lines(c, unmanaged_lines(ls)) == c,
    decreases ls.len(),
{
    if ls.len() > 0 {
        let init = ls.drop_last();
        assert forall|k: int| 0 <= k < init.len() implies !(#[trigger] init[k]).contains('\n') by {
            assert(init[k] == ls[k]);
        }
        lemma_unmanaged(c, init);
        if !is_managed_line(ls.last()) {
            let u = unmanaged_lines(init).push(ls.last());
            assert(u.drop_last() =~= unmanaged_lines(init));
            assert(!ls[ls.len() - 1].contains('\n'));
            assert forall|k: int| 0 <= k < u.len() implies !(#[trigger] u[k]).contains('\n') by {
                if k < u.len() - 1 {
                    assert(u[k] == unmanaged_lines(init)[k]);
                }
            }
        }
    }
}

/// Lines free of line feeds stay so when put together.
pub proof fn lemma_free_concat(a: Seq<Seq<char>>, b: Seq<Seq<char>>)
    requires
        free_of_newlines(a),
        free_of_newlines(b),
    ensures
        free_of_newlines(a + b),
{
    assert forall|k: int| 0 <= k < (a + b).len() implies !(#[trigger] (a + b)[k]).contains('\n') by {
        if k < a.len() {
            assert((a + b)[k] == a[k]);
        } else {
            assert((a + b)[k] == b[k - a.len()]);
        }
    }
}

/// Escaping adds no line feed.
pub proof fn lemma_escape_no_newline(v: Seq<char>)
    requires
        !v.contains('\n'),
    ensures
        !escape(v).contains('\n'),
    decreases v.len(),
{
    if v.len() > 0 {
        assert(!v.drop_last().contains('\n')) by {
            if v.drop_last().contains('\n') {
                let k = choose|k: int| 0 <= k < v.drop_last().len() && v.drop_last()[k] == '\n';
                assert(v[k] == '\n');
            }
        }
        lemma_escape_no_newline(v.drop_last());
        assert(v[v.len() - 1] != '\n');
        let e = escape(v);
        let e0 = escape(v.drop_last());
        let ec = escape_char(v.last());
        assert(e == e0 + ec);
        if e.contains('\n') {
            let k = choose|k: int| 0 <= k < e.len() && e[k] == '\n';
            if k < e0.len() {
                assert(e0[k] == '\n');
            } else {
                assert(ec[k - e0.len()] == '\n');
            }
        }
    }
}

/// How a value reads back once written: the trimmed value, escaped where writing it needed
/// quotes.
pub open spec fn stored_value(x: Seq<char>) -> Seq<char> {
    let t = trim(x);
    if exists|i: int| 0 <= i < t.len() && forces_quotes(t[i]) {
        escape(t)
    } else {
        t
    }
}

/// A written value reads back as `stored_value`, and its line holds no line feed.
pub proof fn lemma_key_value_line(c: EnvSettings, k: Seq<char>, x: Seq<char>)
    requires
        is_plain_key(k),
        !trim(x).contains('\n'),
    ensures
        free_of_newlines(key_value_lines(k, x)),
        trim(x).len() == 0 ==> apply_lines(c, key_value_lines(k, x)) == c,
        trim(x).len() == 0 ==> stored_value(x).len() == 0,
        trim(x).len() > 0 ==> apply_lines(c, key_value_lines(k, x)) == apply_line(
            c,
            k + seq!['='] + format_value(trim(x)),
        ),
        trim(x).len() > 0 ==> parse_line(k + seq!['='] + format_value(trim(x))) == Some(
            (k, stored_value(x)),
        ),
{
    let t = trim(x);
    if t.len() == 0 {
        assert(key_value_lines(k, x) =~= Seq::<Seq<char>>::empty());
        assert(stored_value(x) == t);
    } else {
        let f = format_value(t);
        let line = k + seq!['='] + f;
        lemma_apply_one(c, line);
        assert(key_value_lines(k, x) == seq![line]);
        lemma_parse_key_line(k, f);
        if exists|i: int| 0 <= i < t.len() && forces_quotes(t[i]) {
            lemma_escape_no_newline(t);
            let e = escape(t);
            assert(f == seq!['"'] + e + seq!['"']);
            lemma_trim_unchanged(f);
            assert(f.subrange(1, f.len() - 1) =~= e);
            assert(unquote(f) == e);
            assert(!f.contains('\n')) by {
                if f.contains('\n') {
                    let j = choose|j: int| 0 <= j < f.len() && f[j] == '\n';
                    assert(e[j - 1] == '\n');
                }
            }
        } else {
            assert(f == t);
            assert(!forces_quotes(t[0]));
            assert(!forces_quotes(t[t.len() - 1]));
            lemma_trim_unchanged(t);
            assert(unquote(t) == t);
        }
        assert(!line.contains('\n')) by {
            if line.contains('\n') {
                let j = choose|j: int| 0 <= j < line.len() && line[j] == '\n';
                if j < k.len() {
                    assert(line[j] == k[j]);
                } else if j > k.len() {
                    assert(line[j] == f[j - k.len() - 1]);
                }
            }
        }
    }
}


/// The value that a line without line feeds sets holds none.
pub proof fn lemma_parse_line_no_newline(l: Seq<char>)
    requires
        !l.contains('\n'),
    ensures
        parse_line(l) matches Some((k, x)) ==> !x.contains('\n'),
{
    let t = trim(l);
    lemma_trim_within(l, '\n');
    lemma_first_index(t, '=');
    if let Some((k, x)) = parse_line(l) {
        let i = first_index(t, '=')->0;
        let r = t.skip(i + 1);
        assert(!r.contains('\n')) by {
            if r.contains('\n') {
                let j = choose|j: int| 0 <= j < r.len() && r[j] == '\n';
                assert(t[i + 1 + j] == '\n');
            }
        }
        lemma_trim_within(r, '\n');
        let tr = trim(r);
        assert(x == unquote(tr));
        if x.contains('\n') {
            let j = choose|j: int| 0 <= j < x.len() && x[j] == '\n';
            if x != tr {
                assert(tr[j + 1] == '\n');
            }
            assert(tr.contains('\n'));
        }
    }
}

/// A value found in lines without line feeds holds none.
pub proof fn lemma_find_value_no_newline(ls: Seq<Seq<char>>, target: Seq<char>)
    requires
        free_of_newlines(ls),
    ensures
        find_value(ls, target) matches Some(x) ==> !x.contains('\n'),
    decreases ls.len(),
{
    if ls.len() > 0 {
        assert(!ls[0].contains('\n'));
        lemma_parse_line_no_newline(ls[0]);
        let rest = ls.drop_first();
        assert forall|k: int| 0 <= k < rest.len() implies !(#[trigger] rest[k]).contains('\n') by {
            assert(rest[k] == ls[k + 1]);
        }
        lemma_find_value_no_newline(rest, target);
    }
}

/// The model keys read back from the file written with `cfg`.
pub open spec fn stored_settings(cfg: EnvSettings) -> EnvSettings {
    EnvSettings {
        text: stored_value(cfg.text),
        image: stored_value(cfg.image),
        video: stored_value(cfg.video),
    }
}

/// The lines of the written file hold no line feed, so that splitting its text gives them back
/// (without final carriage returns).
pub proof fn lemma_rendered_lines(existing: Seq<char>, cfg: EnvSettings, fresh: Seq<char>)
    requires
        !trim(cfg.text).contains('\n'),
        !trim(cfg.image).contains('\n'),
        !trim(cfg.video).contains('\n'),
        secret_is_reusable(existing) || !fresh.contains('\n'),
    ensures
        free_of_newlines(rendered_lines(existing, cfg, fresh)),
        lines(render_env(existing, cfg, fresh)) == rendered_lines(existing, cfg, fresh).map_values(
            |l: Seq<char>| strip_cr(l),
        ),
        !jwt_secret_for(existing, fresh).contains('\n'),
{
    let ls = lines(existing);
    let u = unmanaged_lines(ls);
    let kt = key_value_lines(TEXT_MODEL_KEY@, cfg.text);
    let ki = key_value_lines(IMAGE_GENERATION_KEY@, cfg.image);
    let kv = key_value_lines(VIDEO_GENERATION_KEY@, cfg.video);
    let secret = jwt_secret_for(existing, fresh);
    let al = ALLOW_NETWORK_KEY@ + seq!['=', '1'];
    let jl = JWT_SECRET_KEY@ + seq!['='] + secret;
    let tail = seq![al, jl];
    let r = rendered_lines(existing, cfg, fresh);
    assert(r == u + kt + ki + kv + tail);
    let e = EnvSettings::empty();
    lemma_keys_are_plain();
    lemma_lines_without_newline(existing);
    lemma_unmanaged(e, ls);
    lemma_key_value_line(e, TEXT_MODEL_KEY@, cfg.text);
    lemma_key_value_line(e, IMAGE_GENERATION_KEY@, cfg.image);
    lemma_key_value_line(e, VIDEO_GENERATION_KEY@, cfg.video);
    if secret_is_reusable(existing) {
        lemma_find_value_no_newline(ls, JWT_SECRET_KEY@);
    }
    assert(!secret.contains('\n'));
    assert(free_of_newlines(tail)) by {
        assert(!al.contains('\n')) by {
            if al.contains('\n') {
                let j = choose|j: int| 0 <= j < al.len() && al[j] == '\n';
                assert(j < ALLOW_NETWORK_KEY@.len());
                assert(al[j] == ALLOW_NETWORK_KEY@[j]);
            }
        }
        assert(!jl.contains('\n')) by {
            if jl.contains('\n') {
                let j = choose|j: int| 0 <= j < jl.len() && jl[j] == '\n';
                if j < JWT_SECRET_KEY@.len() {
                    assert(jl[j] == JWT_SECRET_KEY@[j]);
                } else if j > JWT_SECRET_KEY@.len() {
                    assert(jl[j] == secret[j - JWT_SECRET_KEY@.len() - 1]);
                }
            }
        }
    }
    lemma_free_concat(u, kt);
    lemma_free_concat(u + kt, ki);
    lemma_free_concat(u + kt + ki, kv);
    lemma_free_concat(u + kt + ki + kv, tail);
    lemma_lines_of_text(r);
}

/// Reading the `.env` file that the launcher writes gives back the model keys it was given,
/// trimmed, and escaped where writing them needed quotes; whatever the file held before. This
/// holds where no trimmed key holds a line feed, and the secret written holds none.
pub proof fn law_written_keys_read_back(existing: Seq<char>, cfg: EnvSettings, fresh: Seq<char>)
    requires
        !trim(cfg.text).contains('\n'),
        !trim(cfg.image).contains('\n'),
        !trim(cfg.video).contains('\n'),
        secret_is_reusable(existing) || !fresh.contains('\n'),
    ensures
        load_env(render_env(existing, cfg, fresh)) == stored_settings(cfg),
{
    let ls = lines(existing);
    let u = unmanaged_lines(ls);
    let kt = key_value_lines(TEXT_MODEL_KEY@, cfg.text);
    let ki = key_value_lines(IMAGE_GENERATION_KEY@, cfg.image);
    let kv = key_value_lines(VIDEO_GENERATION_KEY@, cfg.video);
    let secret = jwt_secret_for(existing, fresh);
    let al = ALLOW_NETWORK_KEY@ + seq!['=', '1'];
    let jl = JWT_SECRET_KEY@ + seq!['='] + secret;
    let tail = seq![al, jl];
    let r = rendered_lines(existing, cfg, fresh);
    assert(r == u + kt + ki + kv + tail);
    let e = EnvSettings::empty();

    lemma_rendered_lines(existing, cfg, fresh);
    lemma_keys_are_plain();
    lemma_lines_without_newline(existing);
    lemma_unmanaged(e, ls);
    let c1 = e;
    lemma_key_value_line(c1, TEXT_MODEL_KEY@, cfg.text);
    let c2 = apply_lines(c1, kt);
    assert(c2.text == stored_value(cfg.text) && c2.image.len() == 0 && c2.video.len() == 0);
    lemma_key_value_line(c2, IMAGE_GENERATION_KEY@, cfg.image);
    let c3 = apply_lines(c2, ki);
    assert(c3.text == c2.text && c3.image == stored_value(cfg.image) && c3.video == c2.video);
    lemma_key_value_line(c3, VIDEO_GENERATION_KEY@, cfg.video);
    let c4 = apply_lines(c3, kv);
    assert(c4.text == c3.text && c4.image == c3.image && c4.video == stored_value(cfg.video));

    lemma_apply_strip_cr(e, r);
    assert(load_env(render_env(existing, cfg, fresh)) == apply_lines(e, r));

    lemma_apply_concat(e, u + kt + ki + kv, tail);
    lemma_apply_concat(e, u + kt + ki, kv);
    lemma_apply_concat(e, u + kt, ki);
    lemma_apply_concat(e, u, kt);
    assert(apply_lines(e, u) == e);

    lemma_parse_key_line(ALLOW_NETWORK_KEY@, seq!['1']);
    lemma_parse_key_line(JWT_SECRET_KEY@, secret);
    assert(tail.drop_last() =~= seq![al]);
    lemma_apply_one(c4, al);
    assert(ALLOW_NETWORK_KEY@ + seq!['='] + seq!['1'] =~= al);
    assert(apply_line(c4, al) == c4);
    assert(apply_line(c4, jl) == c4);
    assert(apply_lines(c4, tail) == c4);

    assert(c4 == stored_settings(cfg));
}

/// Escaping leaves alone a text without backslashes and double quotes.
pub proof fn lemma_escape_plain(v: Seq<char>)
    requires
        forall|i: int| 0 <= i < v.len() ==> v[i] != '\\' && v[i] != '"',
    ensures
        escape(v) == v,
    decreases v.len(),
{
    if v.len() > 0 {
        lemma_escape_plain(v.drop_last());
        assert(v.drop_last() + seq![v.last()] =~= v);
    }
}

/// A value without backslashes, double quotes or line feeds reads back as it was written,
/// trimmed.
pub proof fn lemma_stored_plain(x: Seq<char>)
    requires
        forall|i: int| 0 <= i < trim(x).len() ==> trim(x)[i] != '\\' && trim(x)[i] != '"',
    ensures
        stored_value(x) == trim(x),
{
    lemma_escape_plain(trim(x));
}

/// The model keys read back from the file written with `cfg`, each trimmed.
pub open spec fn trimmed_settings(cfg: EnvSettings) -> EnvSettings {
    EnvSettings { text: trim(cfg.text), image: trim(cfg.image), video: trim(cfg.video) }
}

/// A key without backslashes, double quotes or line feeds (once trimmed).
pub open spec fn is_plain_value(x: Seq<char>) -> bool {
    forall|i: int|
        0 <= i < trim(x).len() ==> trim(x)[i] != '\\' && trim(x)[i] != '"' && trim(x)[i] != '\n'
}

/// Reading the `.env` file that the launcher writes gives back the model keys it was given,
/// trimmed, where no key holds a backslash, a double quote or a line feed and the secret
/// written holds no line feed.
pub proof fn law_plain_keys_read_back(existing: Seq<char>, cfg: EnvSettings, fresh: Seq<char>)
    requires
        is_plain_value(cfg.text),
        is_plain_value(cfg.image),
        is_plain_value(cfg.video),
        secret_is_reusable(existing) || !fresh.contains('\n'),
    ensures
        load_env(render_env(existing, cfg, fresh)) == trimmed_settings(cfg),
{
    lemma_stored_plain(cfg.text);
    lemma_stored_plain(cfg.image);
    lemma_stored_plain(cfg.video);
    law_written_keys_read_back(existing, cfg, fresh);
}


/// A secret that is kept once written: at least 32 bytes of UTF-8 and no line feed, and it
/// reads back as itself (trimming and unquoting leave it as it is).
pub open spec fn is_stable_secret(s: Seq<char>) -> bool {
    &&& utf8_len(s) >= 32
    &&& !s.contains('\n')
    &&& unquote(trim(s)) == s
}

/// Searching `a + b` searches `a`, then `b`.
pub proof fn lemma_find_value_concat(a: Seq<Seq<char>>, b: Seq<Seq<char>>, t: Seq<char>)
    ensures
        find_value(a + b, t) == (match find_value(a, t) {
            Some(x) => Some(x),
            None => find_value(b, t),
        }),
    decreases a.len(),
{
    if a.len() == 0 {
        assert(a + b =~= b);
    } else {
        assert((a + b)[0] == a[0]);
        assert((a + b).drop_first() =~= a.drop_first() + b);
        lemma_find_value_concat(a.drop_first(), b, t);
    }
}

/// Final carriage returns change nothing of what a search finds.
pub proof fn lemma_find_value_strip_cr(ls: Seq<Seq<char>>, t: Seq<char>)
    ensures
        find_value(ls.map_values(|l: Seq<char>| strip_cr(l)), t) == find_value(ls, t),
    decreases ls.len(),
{
    if ls.len() > 0 {
        let m = ls.map_values(|l: Seq<char>| strip_cr(l));
        assert(m[0] == strip_cr(ls[0]));
        lemma_trim_strip_cr(ls[0]);
        assert(m.drop_first() =~= ls.drop_first().map_values(|l: Seq<char>| strip_cr(l)));
        lemma_find_value_strip_cr(ls.drop_first(), t);
    }
}

/// Lines that set no key `t` let a search for `t` find nothing.
pub proof fn lemma_find_value_absent(ls: Seq<Seq<char>>, t: Seq<char>)
    requires
        forall|k: int|
            0 <= k < ls.len() ==> !(#[trigger] parse_line(ls[k]) matches Some((key, _)) && key
                == t),
    ensures
        find_value(ls, t) is None,
    decreases ls.len(),
{
    if ls.len() > 0 {
        let rest = ls.drop_first();
        assert forall|k: int| 0 <= k < rest.len() implies !(#[trigger] parse_line(rest[k]) matches Some((key, _))
            && key == t) by {
            assert(rest[k] == ls[k + 1]);
        }
        lemma_find_value_absent(rest, t);
        assert(!(parse_line(ls[0]) matches Some((key, _)) && key == t));
    }
}

/// The lines kept from a file set no managed key.
pub proof fn lemma_unmanaged_kept(ls: Seq<Seq<char>>)
    ensures
        forall|k: int|
            0 <= k < unmanaged_lines(ls).len() ==> !is_managed_line(
                #[trigger] unmanaged_lines(ls)[k],
            ),
    decreases ls.len(),
{
    if ls.len() > 0 {
        lemma_unmanaged_kept(ls.drop_last());
        let u0 = unmanaged_lines(ls.drop_last());
        if !is_managed_line(ls.last()) {
            let u = u0.push(ls.last());
            assert forall|k: int| 0 <= k < u.len() implies !is_managed_line(#[trigger] u[k]) by {
                if k < u0.len() {
                    assert(u[k] == u0[k]);
                }
            }
        }
    }
}

/// The secret written reads back from the written file, trimmed and unquoted.
pub proof fn lemma_written_secret(existing: Seq<char>, cfg: EnvSettings, fresh: Seq<char>)
    requires
        !trim(cfg.text).contains('\n'),
        !trim(cfg.image).contains('\n'),
        !trim(cfg.video).contains('\n'),
        secret_is_reusable(existing) || !fresh.contains('\n'),
    ensures
        find_value(lines(render_env(existing, cfg, fresh)), JWT_SECRET_KEY@) == Some(
            unquote(trim(jwt_secret_for(existing, fresh))),
        ),
{
    let ls = lines(existing);
    let u = unmanaged_lines(ls);
    let kt = key_value_lines(TEXT_MODEL_KEY@, cfg.text);
    let ki = key_value_lines(IMAGE_GENERATION_KEY@, cfg.image);
    let kv = key_value_lines(VIDEO_GENERATION_KEY@, cfg.video);
    let secret = jwt_secret_for(existing, fresh);
    let al = ALLOW_NETWORK_KEY@ + seq!['=', '1'];
    let jl = JWT_SECRET_KEY@ + seq!['='] + secret;
    let tail = seq![al, jl];
    let r = rendered_lines(existing, cfg, fresh);
    let jk = JWT_SECRET_KEY@;
    assert(r == u + kt + ki + kv + tail);
    let e = EnvSettings::empty();
    lemma_rendered_lines(existing, cfg, fresh);
    lemma_find_value_strip_cr(r, jk);
    lemma_keys_are_plain();
    lemma_unmanaged_kept(ls);
    lemma_find_value_absent(u, jk);
    lemma_key_value_line(e, TEXT_MODEL_KEY@, cfg.text);
    lemma_key_value_line(e, IMAGE_GENERATION_KEY@, cfg.image);
    lemma_key_value_line(e, VIDEO_GENERATION_KEY@, cfg.video);
    if trim(cfg.text).len() > 0 {
        assert(kt[0] == TEXT_MODEL_KEY@ + seq!['='] + format_value(trim(cfg.text)));
    }
    if trim(cfg.image).len() > 0 {
        assert(ki[0] == IMAGE_GENERATION_KEY@ + seq!['='] + format_value(trim(cfg.image)));
    }
    if trim(cfg.video).len() > 0 {
        assert(kv[0] == VIDEO_GENERATION_KEY@ + seq!['='] + format_value(trim(cfg.video)));
    }
    lemma_find_value_absent(kt, jk);
    lemma_find_value_absent(ki, jk);
    lemma_find_value_absent(kv, jk);
    lemma_parse_key_line(ALLOW_NETWORK_KEY@, seq!['1']);
    assert(ALLOW_NETWORK_KEY@ + seq!['='] + seq!['1'] =~= al);
    lemma_parse_key_line(jk, secret);
    assert(tail[0] == al);
    assert(tail[1] == jl);
    assert(tail.drop_first().drop_first() =~= Seq::<Seq<char>>::empty());
    assert(find_value(tail.drop_first(), jk) == Some(unquote(trim(secret))));
    assert(parse_line(tail[0]) == Some((ALLOW_NETWORK_KEY@, unquote(trim(seq!['1'])))));
    assert(ALLOW_NETWORK_KEY@ != jk);
    assert(find_value(tail, jk) == Some(unquote(trim(secret))));
    lemma_find_value_concat(u + kt + ki + kv, tail, jk);
    lemma_find_value_concat(u + kt + ki, kv, jk);
    lemma_find_value_concat(u + kt, ki, jk);
    lemma_find_value_concat(u, kt, jk);
}

/// Once written, the secret stays: rewriting the written file keeps the secret it holds,
/// whatever fresh secret the rewrite could use. This holds where no trimmed key holds a line
/// feed and the secret written reads back as itself.
pub proof fn law_secret_kept(
    existing: Seq<char>,
    cfg: EnvSettings,
    fresh: Seq<char>,
    later_fresh: Seq<char>,
)
    requires
        !trim(cfg.text).contains('\n'),
        !trim(cfg.image).contains('\n'),
        !trim(cfg.video).contains('\n'),
        is_stable_secret(jwt_secret_for(existing, fresh)),
    ensures
        secret_is_reusable(render_env(existing, cfg, fresh)),
        jwt_secret_for(render_env(existing, cfg, fresh), later_fresh) == jwt_secret_for(
            existing,
            fresh,
        ),
{
    if !secret_is_reusable(existing) {
        assert(jwt_secret_for(existing, fresh) == fresh);
    }
    lemma_written_secret(existing, cfg, fresh);
}


/// Keeping the unmanaged lines of `a + b` keeps those of `a`, then those of `b`.
pub proof fn lemma_unmanaged_concat(a: Seq<Seq<char>>, b: Seq<Seq<char>>)
    ensures
        unmanaged_lines(a + b) == unmanaged_lines(a) + unmanaged_lines(b),
    decreases b.len(),
{
    if b.len() == 0 {
        assert(a + b =~= a);
        assert(unmanaged_lines(a) + unmanaged_lines(b) =~= unmanaged_lines(a));
    } else {
        assert((a + b).drop_last() =~= a + b.drop_last());
        assert((a + b).last() == b.last());
        lemma_unmanaged_concat(a, b.drop_last());
        if !is_managed_line(b.last()) {
            assert(unmanaged_lines(a) + unmanaged_lines(b.drop_last()).push(b.last()) =~= (
            unmanaged_lines(a) + unmanaged_lines(b.drop_last())).push(b.last()));
        }
    }
}

/// Lines of which none is managed are all kept.
pub proof fn lemma_unmanaged_all(ls: Seq<Seq<char>>)
    requires
        forall|k: int| 0 <= k < ls.len() ==> !is_managed_line(#[trigger] ls[k]),
    ensures
        unmanaged_lines(ls) == ls,
    decreases ls.len(),
{
    if ls.len() > 0 {
        let init = ls.drop_last();
        assert forall|k: int| 0 <= k < init.len() implies !is_managed_line(#[trigger] init[k]) by {
            assert(init[k] == ls[k]);
        }
        lemma_unmanaged_all(init);
        assert(!is_managed_line(ls[ls.len() - 1]));
        assert(init.push(ls.last()) =~= ls);
    } else {
        assert(ls =~= Seq::<Seq<char>>::empty());
    }
}

/// Lines that are all managed are all dropped.
pub proof fn lemma_unmanaged_none(ls: Seq<Seq<char>>)
    requires
        forall|k: int| 0 <= k < ls.len() ==> is_managed_line(#[trigger] ls[k]),
    ensures
        unmanaged_lines(ls) == Seq::<Seq<char>>::empty(),
    decreases ls.len(),
{
    if ls.len() > 0 {
        let init = ls.drop_last();
        assert forall|k: int| 0 <= k < init.len() implies is_managed_line(#[trigger] init[k]) by {
            assert(init[k] == ls[k]);
        }
        lemma_unmanaged_none(init);
        assert(is_managed_line(ls[ls.len() - 1]));
    }
}

/// No line kept from `existing` ends with a carriage return.
pub open spec fn kept_lines_without_cr(existing: Seq<char>) -> bool {
    forall|k: int|
        0 <= k < unmanaged_lines(lines(existing)).len() ==> strip_cr(
            #[trigger] unmanaged_lines(lines(existing))[k],
        ) == unmanaged_lines(lines(existing))[k]
}

/// The lines that a rewrite of the written file keeps are those kept from the first file.
pub proof fn lemma_kept_lines_of_written(existing: Seq<char>, cfg: EnvSettings, fresh: Seq<char>)
    requires
        !trim(cfg.text).contains('\n'),
        !trim(cfg.image).contains('\n'),
        !trim(cfg.video).contains('\n'),
        secret_is_reusable(existing) || !fresh.contains('\n'),
        kept_lines_without_cr(existing),
    ensures
        unmanaged_lines(lines(render_env(existing, cfg, fresh))) == unmanaged_lines(
            lines(existing),
        ),
{
    let w = render_env(existing, cfg, fresh);
    let ls = lines(existing);
    let u = unmanaged_lines(ls);
    let kt = key_value_lines(TEXT_MODEL_KEY@, cfg.text);
    let ki = key_value_lines(IMAGE_GENERATION_KEY@, cfg.image);
    let kv = key_value_lines(VIDEO_GENERATION_KEY@, cfg.video);
    let secret = jwt_secret_for(existing, fresh);
    let al = ALLOW_NETWORK_KEY@ + seq!['=', '1'];
    let jl = JWT_SECRET_KEY@ + seq!['='] + secret;
    let tail = seq![al, jl];
    let m = kt + ki + kv + tail;
    let r = rendered_lines(existing, cfg, fresh);
    assert(r == u + kt + ki + kv + tail);
    assert(r =~= u + m);
    let e = EnvSettings::empty();
    lemma_rendered_lines(existing, cfg, fresh);

    // the managed lines written stay managed, carriage returns or not
    lemma_keys_are_plain();
    lemma_key_value_line(e, TEXT_MODEL_KEY@, cfg.text);
    lemma_key_value_line(e, IMAGE_GENERATION_KEY@, cfg.image);
    lemma_key_value_line(e, VIDEO_GENERATION_KEY@, cfg.video);
    lemma_parse_key_line(ALLOW_NETWORK_KEY@, seq!['1']);
    assert(ALLOW_NETWORK_KEY@ + seq!['='] + seq!['1'] =~= al);
    lemma_parse_key_line(JWT_SECRET_KEY@, secret);
    let mm = m.map_values(|l: Seq<char>| strip_cr(l));
    assert forall|k: int| 0 <= k < mm.len() implies is_managed_line(#[trigger] mm[k]) by {
        lemma_trim_strip_cr(m[k]);
        assert(mm[k] == strip_cr(m[k]));
        assert(parse_line(mm[k]) == parse_line(m[k]));
        if k < kt.len() {
            assert(m[k] == kt[k]);
        } else if k < kt.len() + ki.len() {
            assert(m[k] == ki[k - kt.len()]);
        } else if k < kt.len() + ki.len() + kv.len() {
            assert(m[k] == kv[k - kt.len() - ki.len()]);
        } else {
            assert(m[k] == tail[k - kt.len() - ki.len() - kv.len()]);
        }
    }
    lemma_unmanaged_none(mm);
    let um = u.map_values(|l: Seq<char>| strip_cr(l));
    assert(um =~= u);
    lemma_unmanaged_kept(ls);
    lemma_unmanaged_all(u);
    assert(r.map_values(|l: Seq<char>| strip_cr(l)) =~= um + mm);
    lemma_unmanaged_concat(um, mm);
    assert(unmanaged_lines(lines(w)) =~= u);
}

/// Saving the same keys again over the file that the launcher wrote gives the same file,
/// secret included, whatever fresh secret the second save could use. This holds where no
/// trimmed key holds a line feed, the secret written reads back as itself, and no line kept
/// from the first file ends with a carriage return.
pub proof fn law_save_twice_keeps_file(
    existing: Seq<char>,
    cfg: EnvSettings,
    fresh: Seq<char>,
    later_fresh: Seq<char>,
)
    requires
        !trim(cfg.text).contains('\n'),
        !trim(cfg.image).contains('\n'),
        !trim(cfg.video).contains('\n'),
        is_stable_secret(jwt_secret_for(existing, fresh)),
        kept_lines_without_cr(existing),
    ensures
        render_env(render_env(existing, cfg, fresh), cfg, later_fresh) == render_env(
            existing,
            cfg,
            fresh,
        ),
{
    let w = render_env(existing, cfg, fresh);
    if !secret_is_reusable(existing) {
        assert(jwt_secret_for(existing, fresh) == fresh);
    }
    law_secret_kept(existing, cfg, fresh, later_fresh);
    lemma_kept_lines_of_written(existing, cfg, fresh);
    assert(rendered_lines(w, cfg, later_fresh) =~= rendered_lines(existing, cfg, fresh));
}

/// Writing the keys read back from the file that the launcher wrote, over that file, gives the
/// same file: starting the services again, which reads `.env` and writes it back, leaves it as
/// it is. This holds where no trimmed key holds a backslash, a double quote or a line feed, the
/// secret written reads back as itself, and no line kept from the first file ends with a
/// carriage return.
pub proof fn law_rewrite_keeps_file(
    existing: Seq<char>,
    cfg: EnvSettings,
    fresh: Seq<char>,
    later_fresh: Seq<char>,
)
    requires
        is_plain_value(cfg.text),
        is_plain_value(cfg.image),
        is_plain_value(cfg.video),
        is_stable_secret(jwt_secret_for(existing, fresh)),
        kept_lines_without_cr(existing),
    ensures
        render_env(
            render_env(existing, cfg, fresh),
            load_env(render_env(existing, cfg, fresh)),
            later_fresh,
        ) == render_env(existing, cfg, fresh),
{
    let w = render_env(existing, cfg, fresh);
    assert(!trim(cfg.text).contains('\n'));
    assert(!trim(cfg.image).contains('\n'));
    assert(!trim(cfg.video).contains('\n'));
    if !secret_is_reusable(existing) {
        assert(jwt_secret_for(existing, fresh) == fresh);
    }
    law_plain_keys_read_back(existing, cfg, fresh);
    let cfg2 = load_env(w);
    assert(cfg2 == trimmed_settings(cfg));
    law_secret_kept(existing, cfg, fresh, later_fresh);
    lemma_kept_lines_of_written(existing, cfg, fresh);
    lemma_trim_idempotent(cfg.text);
    lemma_trim_idempotent(cfg.image);
    lemma_trim_idempotent(cfg.video);
    assert(rendered_lines(w, cfg2, later_fresh) =~= rendered_lines(existing, cfg, fresh));
}

/// A hexadecimal digit is a decimal digit or a letter from `a` to `f`.
pub proof fn lemma_hex_digit(n: int)
    requires
        0 <= n < 16,
    ensures
        ('0' <= hex_digit(n) <= '9') || ('a' <= hex_digit(n) <= 'f'),
{
    assert(n == 0 || n == 1 || n == 2 || n == 3 || n == 4 || n == 5 || n == 6 || n == 7 || n == 8
        || n == 9 || n == 10 || n == 11 || n == 12 || n == 13 || n == 14 || n == 15);
}

/// The digits of `b` in hexadecimal hold no line feed, and none is whitespace.
pub proof fn lemma_lower_hex_chars(b: Seq<u8>)
    ensures
        forall|i: int|
            0 <= i < lower_hex(b).len() ==> ('0' <= #[trigger] lower_hex(b)[i] <= '9') || ('a'
                <= lower_hex(b)[i] <= 'f'),
{
    assert forall|i: int| 0 <= i < lower_hex(b).len() implies ('0' <= #[trigger] lower_hex(b)[i]
        <= '9') || ('a' <= lower_hex(b)[i] <= 'f') by {
        let x = b[i / 2];
        if i % 2 == 0 {
            lemma_hex_digit((x / 16) as int);
        } else {
            lemma_hex_digit((x % 16) as int);
        }
    }
}

/// A secret that the launcher makes reads back as itself once written.
pub proof fn law_generated_secret_is_stable(s: Seq<char>)
    requires
        is_generated_secret(s),
    ensures
        is_stable_secret(s),
{
    let (b1, b2) = choose|b1: Seq<u8>, b2: Seq<u8>|
        #![trigger lower_hex(b1), lower_hex(b2)]
        is_v4_bytes(b1) && is_v4_bytes(b2) && s == "bee-jwt-"@
            + lower_hex(b1) + lower_hex(b2);
    reveal_strlit("bee-jwt-");
    let p = "bee-jwt-"@;
    let h1 = lower_hex(b1);
    let h2 = lower_hex(b2);
    lemma_lower_hex_chars(b1);
    lemma_lower_hex_chars(b2);
    assert(s.len() == 72);
    lemma_utf8_len_at_least_len(s);
    assert(s[0] == 'b');
    assert(s.last() == h2[31]);
    lemma_trim_unchanged(s);
    assert(!s.contains('\n')) by {
        if s.contains('\n') {
            let j = choose|j: int| 0 <= j < s.len() && s[j] == '\n';
            if j < 8 {
                assert(s[j] == p[j]);
            } else if j < 40 {
                assert(s[j] == h1[j - 8]);
            } else {
                assert(s[j] == h2[j - 40]);
            }
        }
    }
}


/// Writing a value without backslashes or double quotes and unquoting it gives it back.
pub proof fn law_unquote_format(v: Seq<char>)
    requires
        forall|i: int| 0 <= i < v.len() ==> v[i] != '\\' && v[i] != '"',
    ensures
        unquote(format_value(v)) == v,
{
    lemma_escape_plain(v);
    if exists|i: int| 0 <= i < v.len() && forces_quotes(v[i]) {
        let f = seq!['"'] + v + seq!['"'];
        assert(format_value(v) == f);
        assert(f.subrange(1, f.len() - 1) =~= v);
    } else if v.len() > 0 {
        assert(!forces_quotes(v[0]));
    }
}


/// The number of lines of `ls` that set the key `k`.
pub open spec fn key_count(ls: Seq<Seq<char>>, k: Seq<char>) -> nat
    decreases ls.len(),
{
    if ls.len() == 0 {
        0
    } else {
        key_count(ls.drop_last(), k) + if parse_line(ls.last()) matches Some((key, _)) && key
            == k {
            1nat
        } else {
            0nat
        }
    }
}

/// Counting over `a + b` counts over `a`, then over `b`.
pub proof fn lemma_key_count_concat(a: Seq<Seq<char>>, b: Seq<Seq<char>>, k: Seq<char>)
    ensures
        key_count(a + b, k) == key_count(a, k) + key_count(b, k),
    decreases b.len(),
{
    if b.len() == 0 {
        assert(a + b =~= a);
    } else {
        assert((a + b).drop_last() =~= a + b.drop_last());
        assert((a + b).last() == b.last());
        lemma_key_count_concat(a, b.drop_last(), k);
    }
}

/// Final carriage returns change no count.
pub proof fn lemma_key_count_strip_cr(ls: Seq<Seq<char>>, k: Seq<char>)
    ensures
        key_count(ls.map_values(|l: Seq<char>| strip_cr(l)), k) == key_count(ls, k),
    decreases ls.len(),
{
    if ls.len() > 0 {
        let m = ls.map_values(|l: Seq<char>| strip_cr(l));
        assert(m.drop_last() =~= ls.drop_last().map_values(|l: Seq<char>| strip_cr(l)));
        lemma_key_count_strip_cr(ls.drop_last(), k);
        lemma_trim_strip_cr(ls.last());
        assert(m.last() == strip_cr(ls.last()));
        assert(parse_line(m.last()) == parse_line(ls.last()));
    }
}

/// Lines that set no key `k` count none.
pub proof fn lemma_key_count_absent(ls: Seq<Seq<char>>, k: Seq<char>)
    requires
        forall|i: int|
            0 <= i < ls.len() ==> !(#[trigger] parse_line(ls[i]) matches Some((key, _)) && key
                == k),
    ensures
        key_count(ls, k) == 0,
    decreases ls.len(),
{
    if ls.len() > 0 {
        let init = ls.drop_last();
        assert forall|i: int| 0 <= i < init.len() implies !(#[trigger] parse_line(init[i]) matches Some((key, _))
            && key == k) by {
            assert(init[i] == ls[i]);
        }
        lemma_key_count_absent(init, k);
        assert(!(parse_line(ls[ls.len() - 1]) matches Some((key, _)) && key == k));
    }
}

/// One line counts once for the key it sets.
pub proof fn lemma_key_count_one(l: Seq<char>, k: Seq<char>)
    ensures
        key_count(seq![l], k) == (if parse_line(l) matches Some((key, _)) && key == k {
            1nat
        } else {
            0nat
        }),
{
    assert(seq![l].drop_last() =~= Seq::<Seq<char>>::empty());
    assert(key_count(seq![l].drop_last(), k) == 0);
    assert(seq![l].last() == l);
}

/// The lines written for the model key `kk` count once for `kk` where its value is not blank,
/// and never for another key.
pub proof fn lemma_key_count_of_value(kk: Seq<char>, x: Seq<char>, k: Seq<char>)
    requires
        is_plain_key(kk),
        !trim(x).contains('\n'),
    ensures
        key_count(key_value_lines(kk, x), k) == (if kk == k && trim(x).len() > 0 {
            1nat
        } else {
            0nat
        }),
{
    lemma_key_value_line(EnvSettings::empty(), kk, x);
    if trim(x).len() == 0 {
        assert(key_value_lines(kk, x) =~= Seq::<Seq<char>>::empty());
    } else {
        let line = kk + seq!['='] + format_value(trim(x));
        assert(key_value_lines(kk, x) == seq![line]);
        lemma_key_count_one(line, k);
    }
}

/// Splitting the file that the launcher writes gives: the network switch once, set to `1`; the
/// secret once; each model key once where its trimmed value is not empty, and never where it
/// is. This holds where no trimmed key holds a line feed, and the secret written holds none.
pub proof fn law_each_managed_key_once(existing: Seq<char>, cfg: EnvSettings, fresh: Seq<char>)
    requires
        !trim(cfg.text).contains('\n'),
        !trim(cfg.image).contains('\n'),
        !trim(cfg.video).contains('\n'),
        secret_is_reusable(existing) || !fresh.contains('\n'),
    ensures
        key_count(lines(render_env(existing, cfg, fresh)), ALLOW_NETWORK_KEY@) == 1,
        find_value(lines(render_env(existing, cfg, fresh)), ALLOW_NETWORK_KEY@) == Some(
            seq!['1'],
        ),
        key_count(lines(render_env(existing, cfg, fresh)), JWT_SECRET_KEY@) == 1,
        key_count(lines(render_env(existing, cfg, fresh)), TEXT_MODEL_KEY@) == (if trim(
            cfg.text,
        ).len() > 0 {
            1nat
        } else {
            0nat
        }),
        key_count(lines(render_env(existing, cfg, fresh)), IMAGE_GENERATION_KEY@) == (if trim(
            cfg.image,
        ).len() > 0 {
            1nat
        } else {
            0nat
        }),
        key_count(lines(render_env(existing, cfg, fresh)), VIDEO_GENERATION_KEY@) == (if trim(
            cfg.video,
        ).len() > 0 {
            1nat
        } else {
            0nat
        }),
{
    let ls = lines(existing);
    let u = unmanaged_lines(ls);
    let kt = key_value_lines(TEXT_MODEL_KEY@, cfg.text);
    let ki = key_value_lines(IMAGE_GENERATION_KEY@, cfg.image);
    let kv = key_value_lines(VIDEO_GENERATION_KEY@, cfg.video);
    let secret = jwt_secret_for(existing, fresh);
    let al = ALLOW_NETWORK_KEY@ + seq!['=', '1'];
    let jl = JWT_SECRET_KEY@ + seq!['='] + secret;
    let tail = seq![al, jl];
    let r = rendered_lines(existing, cfg, fresh);
    assert(r == u + kt + ki + kv + tail);
    lemma_rendered_lines(existing, cfg, fresh);
    lemma_keys_are_plain();
    lemma_unmanaged_kept(ls);
    lemma_parse_key_line(ALLOW_NETWORK_KEY@, seq!['1']);
    assert(ALLOW_NETWORK_KEY@ + seq!['='] + seq!['1'] =~= al);
    lemma_parse_key_line(JWT_SECRET_KEY@, secret);
    assert(tail[0] == al);
    assert(tail[1] == jl);
    assert(tail.drop_last() =~= seq![al]);
    assert(tail.drop_first() =~= seq![jl]);
    assert(trim(seq!['1']) == seq!['1']);
    assert(unquote(seq!['1']) == seq!['1']);
    assert forall|k: Seq<char>| #[trigger] is_managed_key(k) implies key_count(
        lines(render_env(existing, cfg, fresh)),
        k,
    ) == key_count(kt, k) + key_count(ki, k) + key_count(kv, k) + key_count(tail, k) by {
        lemma_key_count_strip_cr(r, k);
        lemma_key_count_absent(u, k);
        lemma_key_count_concat(u + kt + ki + kv, tail, k);
        lemma_key_count_concat(u + kt + ki, kv, k);
        lemma_key_count_concat(u + kt, ki, k);
        lemma_key_count_concat(u, kt, k);
    }
    assert forall|k: Seq<char>| #[trigger] is_managed_key(k) implies key_count(tail, k) == (if k
        == ALLOW_NETWORK_KEY@ {
        1nat
    } else {
        0nat
    }) + (if k == JWT_SECRET_KEY@ {
        1nat
    } else {
        0nat
    }) by {
        lemma_key_count_one(al, k);
        lemma_key_count_one(jl, k);
    }
    let keys = seq![
        ALLOW_NETWORK_KEY@,
        JWT_SECRET_KEY@,
        TEXT_MODEL_KEY@,
        IMAGE_GENERATION_KEY@,
        VIDEO_GENERATION_KEY@,
    ];
    assert forall|i: int| 0 <= i < 5 implies is_managed_key(#[trigger] keys[i]) by {}
    assert forall|i: int| 0 <= i < 5 implies key_count(kt, #[trigger] keys[i]) == (if keys[i]
        == TEXT_MODEL_KEY@ && trim(cfg.text).len() > 0 {
        1nat
    } else {
        0nat
    }) && key_count(ki, keys[i]) == (if keys[i] == IMAGE_GENERATION_KEY@ && trim(
        cfg.image,
    ).len() > 0 {
        1nat
    } else {
        0nat
    }) && key_count(kv, keys[i]) == (if keys[i] == VIDEO_GENERATION_KEY@ && trim(
        cfg.video,
    ).len() > 0 {
        1nat
    } else {
        0nat
    }) by {
        lemma_key_count_of_value(TEXT_MODEL_KEY@, cfg.text, keys[i]);
        lemma_key_count_of_value(IMAGE_GENERATION_KEY@, cfg.image, keys[i]);
        lemma_key_count_of_value(VIDEO_GENERATION_KEY@, cfg.video, keys[i]);
    }
    assert(keys[0] == ALLOW_NETWORK_KEY@);
    assert(keys[1] == JWT_SECRET_KEY@);
    assert(keys[2] == TEXT_MODEL_KEY@);
    assert(keys[3] == IMAGE_GENERATION_KEY@);
    assert(keys[4] == VIDEO_GENERATION_KEY@);

    // the switch's value
    let ak = ALLOW_NETWORK_KEY@;
    lemma_find_value_strip_cr(r, ak);
    lemma_find_value_absent(u, ak);
    lemma_key_value_line(EnvSettings::empty(), TEXT_MODEL_KEY@, cfg.text);
    lemma_key_value_line(EnvSettings::empty(), IMAGE_GENERATION_KEY@, cfg.image);
    lemma_key_value_line(EnvSettings::empty(), VIDEO_GENERATION_KEY@, cfg.video);
    if trim(cfg.text).len() > 0 {
        assert(kt[0] == TEXT_MODEL_KEY@ + seq!['='] + format_value(trim(cfg.text)));
    }
    if trim(cfg.image).len() > 0 {
        assert(ki[0] == IMAGE_GENERATION_KEY@ + seq!['='] + format_value(trim(cfg.image)));
    }
    if trim(cfg.video).len() > 0 {
        assert(kv[0] == VIDEO_GENERATION_KEY@ + seq!['='] + format_value(trim(cfg.video)));
    }
    lemma_find_value_absent(kt, ak);
    lemma_find_value_absent(ki, ak);
    lemma_find_value_absent(kv, ak);
    assert(find_value(tail, ak) == Some(seq!['1']));
    lemma_find_value_concat(u + kt + ki + kv, tail, ak);
    lemma_find_value_concat(u + kt + ki, kv, ak);
    lemma_find_value_concat(u + kt, ki, ak);
    lemma_find_value_concat(u, kt, ak);
}


/// A secret that does not read back as itself, though what reads back is long enough to keep,
/// changes on the next save: saving twice with the same keys then gives another file. So the
/// condition on the secret in `law_save_twice_keeps_file` cannot be weakened.
pub proof fn law_save_twice_changes_unstable_secret(
    existing: Seq<char>,
    cfg: EnvSettings,
    fresh: Seq<char>,
    later_fresh: Seq<char>,
)
    requires
        !trim(cfg.text).contains('\n'),
        !trim(cfg.image).contains('\n'),
        !trim(cfg.video).contains('\n'),
        secret_is_reusable(existing) || !fresh.contains('\n'),
        kept_lines_without_cr(existing),
        utf8_len(unquote(trim(jwt_secret_for(existing, fresh)))) >= 32,
        unquote(trim(jwt_secret_for(existing, fresh))) != jwt_secret_for(existing, fresh),
    ensures
        render_env(render_env(existing, cfg, fresh), cfg, later_fresh) != render_env(
            existing,
            cfg,
            fresh,
        ),
{
    let sec = jwt_secret_for(existing, fresh);
    let w = render_env(existing, cfg, fresh);
    lemma_written_secret(existing, cfg, fresh);
    let sec2 = jwt_secret_for(w, later_fresh);
    assert(sec2 == unquote(trim(sec)));
    lemma_kept_lines_of_written(existing, cfg, fresh);
    let r1 = rendered_lines(existing, cfg, fresh);
    let r2 = rendered_lines(w, cfg, later_fresh);
    assert(r1.drop_last() =~= r2.drop_last());
    let a = text_of_lines(r1.drop_last());
    let jk = JWT_SECRET_KEY@;
    let l1 = jk + seq!['='] + sec;
    let l2 = jk + seq!['='] + sec2;
    assert(r1.last() == l1);
    assert(r2.last() == l2);
    assert(w == a + l1 + seq!['\n']);
    assert(render_env(w, cfg, later_fresh) == a + l2 + seq!['\n']);
    if render_env(w, cfg, later_fresh) == w {
        let t = w;
        assert(l1.len() == l2.len());
        assert(l1 =~= t.subrange(a.len() as int, a.len() as int + l1.len()));
        assert(l2 =~= t.subrange(a.len() as int, a.len() as int + l2.len()));
        assert(sec =~= l1.skip(jk.len() as int + 1));
        assert(sec2 =~= l2.skip(jk.len() as int + 1));
    }
}


/// A key is managed exactly when it is one of the five names that the launcher writes.
pub proof fn law_managed_keys_are_the_five(k: Seq<char>)
    ensures
        is_managed_key(k) <==> (k == "DEEPSEEK_API_KEY"@ || k == "IMAGE_GENERATION_API_KEY"@ || k
            == "VIDEO_GENERATION_API_KEY"@ || k == "BEE_ALLOW_NETWORK"@ || k
            == "BEE__JWT__SECRET"@),
{
    reveal_strlit("DEEPSEEK_API_KEY");
    reveal_strlit("IMAGE_GENERATION_API_KEY");
    reveal_strlit("VIDEO_GENERATION_API_KEY");
    reveal_strlit("BEE_ALLOW_NETWORK");
    reveal_strlit("BEE__JWT__SECRET");
    assert(TEXT_MODEL_KEY@ =~= "DEEPSEEK_API_KEY"@);
    assert(IMAGE_GENERATION_KEY@ =~= "IMAGE_GENERATION_API_KEY"@);
    assert(VIDEO_GENERATION_KEY@ =~= "VIDEO_GENERATION_API_KEY"@);
    assert(ALLOW_NETWORK_KEY@ =~= "BEE_ALLOW_NETWORK"@);
    assert(JWT_SECRET_KEY@ =~= "BEE__JWT__SECRET"@);
}

/// A line that sets no managed key is kept.
pub proof fn lemma_unmanaged_keeps(ls: Seq<Seq<char>>, k: int)
    requires
        0 <= k < ls.len(),
        !is_managed_line(ls[k]),
    ensures
        unmanaged_lines(ls).contains(ls[k]),
    decreases ls.len(),
{
    let init = ls.drop_last();
    if k < ls.len() - 1 {
        assert(init[k] == ls[k]);
        lemma_unmanaged_keeps(init, k);
        let u0 = unmanaged_lines(init);
        let j = choose|j: int| 0 <= j < u0.len() && u0[j] == ls[k];
        if !is_managed_line(ls.last()) {
            assert(u0.push(ls.last())[j] == ls[k]);
        }
    } else {
        let u0 = unmanaged_lines(init);
        assert(u0.push(ls.last())[u0.len() as int] == ls[k]);
    }
}

/// Saving keeps the user's own lines: every line of the existing file that sets none of the
/// five managed names (or sets no key at all) is among the lines written; and no line that sets
/// one of them is kept from the existing file.
pub proof fn law_foreign_lines_kept(existing: Seq<char>, cfg: EnvSettings, fresh: Seq<char>)
    ensures
        forall|k: int|
            0 <= k < lines(existing).len() && !(parse_line(#[trigger] lines(existing)[k]) matches Some(
                (key, _),
            ) && (key == "DEEPSEEK_API_KEY"@ || key == "IMAGE_GENERATION_API_KEY"@ || key
                == "VIDEO_GENERATION_API_KEY"@ || key == "BEE_ALLOW_NETWORK"@ || key
                == "BEE__JWT__SECRET"@)) ==> rendered_lines(existing, cfg, fresh).contains(
                lines(existing)[k],
            ),
        forall|j: int|
            0 <= j < unmanaged_lines(lines(existing)).len() ==> !(parse_line(
                #[trigger] unmanaged_lines(lines(existing))[j],
            ) matches Some((key, _)) && (key == "DEEPSEEK_API_KEY"@ || key
                == "IMAGE_GENERATION_API_KEY"@ || key == "VIDEO_GENERATION_API_KEY"@ || key
                == "BEE_ALLOW_NETWORK"@ || key == "BEE__JWT__SECRET"@)),
{
    let ls = lines(existing);
    let u = unmanaged_lines(ls);
    let r = rendered_lines(existing, cfg, fresh);
    let rest = key_value_lines(TEXT_MODEL_KEY@, cfg.text) + key_value_lines(
        IMAGE_GENERATION_KEY@,
        cfg.image,
    ) + key_value_lines(VIDEO_GENERATION_KEY@, cfg.video) + seq![
        ALLOW_NETWORK_KEY@ + seq!['=', '1'],
        JWT_SECRET_KEY@ + seq!['='] + jwt_secret_for(existing, fresh),
    ];
    assert(r =~= u + rest);
    assert forall|key: Seq<char>| #[trigger] is_managed_key(key) == (key == "DEEPSEEK_API_KEY"@
        || key == "IMAGE_GENERATION_API_KEY"@ || key == "VIDEO_GENERATION_API_KEY"@ || key
        == "BEE_ALLOW_NETWORK"@ || key == "BEE__JWT__SECRET"@) by {
        law_managed_keys_are_the_five(key);
    }
    assert forall|k: int|
        0 <= k < ls.len() && !(parse_line(#[trigger] ls[k]) matches Some((key, _)) && (key
            == "DEEPSEEK_API_KEY"@ || key == "IMAGE_GENERATION_API_KEY"@ || key
            == "VIDEO_GENERATION_API_KEY"@ || key == "BEE_ALLOW_NETWORK"@ || key
            == "BEE__JWT__SECRET"@)) implies r.contains(ls[k]) by {
        assert(!is_managed_line(ls[k]));
        lemma_unmanaged_keeps(ls, k);
        let j = choose|j: int| 0 <= j < u.len() && u[j] == ls[k];
        assert(r[j] == u[j]);
    }
    lemma_unmanaged_kept(ls);
}


/// A search finds the value of the first line that sets the key, and nothing where no line
/// sets it.
pub proof fn law_find_first(ls: Seq<Seq<char>>, target: Seq<char>)
    ensures
        forall|k: int|
            0 <= k < ls.len() && (parse_line(#[trigger] ls[k]) matches Some((key, _)) && key
                == target) && (forall|j: int|
                0 <= j < k ==> !(parse_line(#[trigger] ls[j]) matches Some((key, _)) && key == target))
                ==> find_value(ls, target) == Some((parse_line(ls[k])->0).1),
        (forall|j: int|
            0 <= j < ls.len() ==> !(parse_line(#[trigger] ls[j]) matches Some((key, _)) && key
                == target)) ==> find_value(ls, target) is None,
    decreases ls.len(),
{
    if ls.len() > 0 {
        let rest = ls.drop_first();
        law_find_first(rest, target);
        assert forall|k: int|
            0 <= k < ls.len() && (parse_line(#[trigger] ls[k]) matches Some((key, _)) && key
                == target) && (forall|j: int|
                0 <= j < k ==> !(parse_line(#[trigger] ls[j]) matches Some((key, _)) && key == target))
                implies find_value(ls, target) == Some((parse_line(ls[k])->0).1) by {
            if k > 0 {
                assert(rest[k - 1] == ls[k]);
                assert forall|j: int| 0 <= j < k - 1 implies !(parse_line(#[trigger] rest[j]) matches Some(
                    (key, _),
                ) && key == target) by {
                    assert(rest[j] == ls[j + 1]);
                }
                assert(!(parse_line(ls[0]) matches Some((key, _)) && key == target));
            }
        }
        if forall|j: int|
            0 <= j < ls.len() ==> !(parse_line(#[trigger] ls[j]) matches Some((key, _)) && key
                == target) {
            assert forall|j: int| 0 <= j < rest.len() implies !(parse_line(#[trigger] rest[j]) matches Some(
                (key, _),
            ) && key == target) by {
                assert(rest[j] == ls[j + 1]);
            }
            assert(!(parse_line(ls[0]) matches Some((key, _)) && key == target));
        }
    }
}

/// Loading gives the text model key the value of the last line that sets it, and leaves it
/// empty where no line sets it; likewise for the image and video keys.
pub proof fn law_last_line_wins(ls: Seq<Seq<char>>)
    ensures
        forall|k: int|
            0 <= k < ls.len() && (parse_line(#[trigger] ls[k]) matches Some((key, _)) && key
                == TEXT_MODEL_KEY@) && (forall|j: int|
                k < j < ls.len() ==> !(parse_line(#[trigger] ls[j]) matches Some((key, _)) && key
                    == TEXT_MODEL_KEY@)) ==> load_lines(ls).text == (parse_line(ls[k])->0).1,
        forall|k: int|
            0 <= k < ls.len() && (parse_line(#[trigger] ls[k]) matches Some((key, _)) && key
                == IMAGE_GENERATION_KEY@) && (forall|j: int|
                k < j < ls.len() ==> !(parse_line(#[trigger] ls[j]) matches Some((key, _)) && key
                    == IMAGE_GENERATION_KEY@)) ==> load_lines(ls).image == (parse_line(ls[k])->0).1,
        forall|k: int|
            0 <= k < ls.len() && (parse_line(#[trigger] ls[k]) matches Some((key, _)) && key
                == VIDEO_GENERATION_KEY@) && (forall|j: int|
                k < j < ls.len() ==> !(parse_line(#[trigger] ls[j]) matches Some((key, _)) && key
                    == VIDEO_GENERATION_KEY@)) ==> load_lines(ls).video == (parse_line(ls[k])->0).1,
        (forall|j: int|
            0 <= j < ls.len() ==> !(parse_line(#[trigger] ls[j]) matches Some((key, _)) && key
                == TEXT_MODEL_KEY@)) ==> load_lines(ls).text.len() == 0,
        (forall|j: int|
            0 <= j < ls.len() ==> !(parse_line(#[trigger] ls[j]) matches Some((key, _)) && key
                == IMAGE_GENERATION_KEY@)) ==> load_lines(ls).image.len() == 0,
        (forall|j: int|
            0 <= j < ls.len() ==> !(parse_line(#[trigger] ls[j]) matches Some((key, _)) && key
                == VIDEO_GENERATION_KEY@)) ==> load_lines(ls).video.len() == 0,
    decreases ls.len(),
{
    lemma_keys_are_plain();
    if ls.len() > 0 {
        let init = ls.drop_last();
        law_last_line_wins(init);
        let n = ls.len() - 1;
        assert forall|j: int| 0 <= j < init.len() implies #[trigger] init[j] == ls[j] by {}
        assert(ls.last() == ls[n]);
        let before = load_lines(init);
        assert(load_lines(ls) == apply_line(before, ls[n]));
        let last_sets = |key: Seq<char>| parse_line(ls[n]) matches Some((k0, _)) && k0 == key;
        if !last_sets(TEXT_MODEL_KEY@) {
            assert(load_lines(ls).text == before.text);
        }
        if !last_sets(IMAGE_GENERATION_KEY@) {
            assert(load_lines(ls).image == before.image);
        }
        if !last_sets(VIDEO_GENERATION_KEY@) {
            assert(load_lines(ls).video == before.video);
        }
        assert forall|k: int|
            0 <= k < ls.len() && (parse_line(#[trigger] ls[k]) matches Some((key, _)) && key
                == TEXT_MODEL_KEY@) && (forall|j: int|
                k < j < ls.len() ==> !(parse_line(#[trigger] ls[j]) matches Some((key, _)) && key
                    == TEXT_MODEL_KEY@)) implies load_lines(ls).text == (parse_line(ls[k])->0).1 by {
            if k < n {
                assert(init[k] == ls[k]);
                assert forall|j: int| k < j < init.len() implies !(parse_line(#[trigger] init[j]) matches Some(
                    (key, _),
                ) && key == TEXT_MODEL_KEY@) by {
                    assert(init[j] == ls[j]);
                }
                assert(!last_sets(TEXT_MODEL_KEY@));
            }
        }
        assert forall|k: int|
            0 <= k < ls.len() && (parse_line(#[trigger] ls[k]) matches Some((key, _)) && key
                == IMAGE_GENERATION_KEY@) && (forall|j: int|
                k < j < ls.len() ==> !(parse_line(#[trigger] ls[j]) matches Some((key, _)) && key
                    == IMAGE_GENERATION_KEY@)) implies load_lines(ls).image == (parse_line(
                ls[k],
            )->0).1 by {
            if k < n {
                assert(init[k] == ls[k]);
                assert forall|j: int| k < j < init.len() implies !(parse_line(#[trigger] init[j]) matches Some(
                    (key, _),
                ) && key == IMAGE_GENERATION_KEY@) by {
                    assert(init[j] == ls[j]);
                }
                assert(!last_sets(IMAGE_GENERATION_KEY@));
            }
        }
        assert forall|k: int|
            0 <= k < ls.len() && (parse_line(#[trigger] ls[k]) matches Some((key, _)) && key
                == VIDEO_GENERATION_KEY@) && (forall|j: int|
                k < j < ls.len() ==> !(parse_line(#[trigger] ls[j]) matches Some((key, _)) && key
                    == VIDEO_GENERATION_KEY@)) implies load_lines(ls).video == (parse_line(
                ls[k],
            )->0).1 by {
            if k < n {
                assert(init[k] == ls[k]);
                assert forall|j: int| k < j < init.len() implies !(parse_line(#[trigger] init[j]) matches Some(
                    (key, _),
                ) && key == VIDEO_GENERATION_KEY@) by {
                    assert(init[j] == ls[j]);
                }
                assert(!last_sets(VIDEO_GENERATION_KEY@));
            }
        }
        if forall|j: int|
            0 <= j < ls.len() ==> !(parse_line(#[trigger] ls[j]) matches Some((key, _)) && key
                == TEXT_MODEL_KEY@) {
            assert(!last_sets(TEXT_MODEL_KEY@));
            assert forall|j: int| 0 <= j < init.len() implies !(parse_line(#[trigger] init[j]) matches Some(
                (key, _),
            ) && key == TEXT_MODEL_KEY@) by {
                assert(init[j] == ls[j]);
            }
        }
        if forall|j: int|
            0 <= j < ls.len() ==> !(parse_line(#[trigger] ls[j]) matches Some((key, _)) && key
                == IMAGE_GENERATION_KEY@) {
            assert(!last_sets(IMAGE_GENERATION_KEY@));
            assert forall|j: int| 0 <= j < init.len() implies !(parse_line(#[trigger] init[j]) matches Some(
                (key, _),
            ) && key == IMAGE_GENERATION_KEY@) by {
                assert(init[j] == ls[j]);
            }
        }
        if forall|j: int|
            0 <= j < ls.len() ==> !(parse_line(#[trigger] ls[j]) matches Some((key, _)) && key
                == VIDEO_GENERATION_KEY@) {
            assert(!last_sets(VIDEO_GENERATION_KEY@));
            assert forall|j: int| 0 <= j < init.len() implies !(parse_line(#[trigger] init[j]) matches Some(
                (key, _),
            ) && key == VIDEO_GENERATION_KEY@) by {
                assert(init[j] == ls[j]);
            }
        }
    }
}

} // verus!
