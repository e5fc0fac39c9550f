//! The launcher's `.env` file: reading the model keys out of it and writing them back.

use vstd::prelude::*;

use crate::secret::{generate_jwt_secret, is_generated_secret};
use crate::text::{
    chars_of, first_index, is_space, is_space_char, lemma_first_index_at, line_spans, lines,
    spans_text, spans_within, span_equals, text_of_lines, trim, trim_span, utf8_len,
    utf8_len_at_least,
};

verus! {

/// Name of the text model key in `.env`.
pub const TEXT_MODEL_KEY: &'static str = "DEEPSEEK_API_KEY";

/// Name of the image generation key in `.env`.
pub const IMAGE_GENERATION_KEY: &'static str = "IMAGE_GENERATION_API_KEY";

/// Name of the video generation key in `.env`.
pub const VIDEO_GENERATION_KEY: &'static str = "VIDEO_GENERATION_API_KEY";

/// Name of the switch that lets the services reach the network.
pub const ALLOW_NETWORK_KEY: &'static str = "BEE_ALLOW_NETWORK";

/// Name of the secret that signs the services' tokens.
pub const JWT_SECRET_KEY: &'static str = "BEE__JWT__SECRET";

/// Address of the web console.
pub const WEB_CONSOLE_URL: &'static str = "http://localhost:8090";

/// The model keys that the launcher manages, as text.
pub struct EnvSettings {
    pub text: Seq<char>,
    pub image: Seq<char>,
    pub video: Seq<char>,
}

impl EnvSettings {
    /// No key set.
    pub open spec fn empty() -> EnvSettings {
        EnvSettings { text: Seq::empty(), image: Seq::empty(), video: Seq::empty() }
    }
}

/// The model keys that the launcher reads from and writes to `.env`.
#[derive(Debug, Clone, PartialEq, Eq)]
pub struct EnvConfig {
    pub text_model_key: String,
    pub image_generation_key: String,
    pub video_generation_key: String,
}

impl View for EnvConfig {
    type V = EnvSettings;

    open spec fn view(&self) -> EnvSettings {
        EnvSettings {
            text: self.text_model_key@,
            image: self.image_generation_key@,
            video: self.video_generation_key@,
        }
    }
}

impl Default for EnvConfig {
    /// No key set.
    fn default() -> (r: EnvConfig)
        ensures
            r@ == EnvSettings::empty(),
    {
        EnvConfig {
            text_model_key: String::new(),
            image_generation_key: String::new(),
            video_generation_key: String::new(),
        }
    }
}

/// `v` without one pair of matching surrounding quotes (`"` or `'`).
pub open spec fn unquote(v: Seq<char>) -> Seq<char> {
    if v.len() >= 2 && ((v[0] == '"' && v.last() == '"') || (v[0] == '\'' && v.last() == '\'')) {
        v.subrange(1, v.len() - 1)
    } else {
        v
    }
}

/// The key and value that a line of `.env` sets: blank lines, comments, lines without `=` and
/// lines with an empty key set nothing; key and value are trimmed and the value unquoted.
pub open spec fn parse_line(line: Seq<char>) -> Option<(Seq<char>, Seq<char>)> {
    let t = trim(line);
    if t.len() == 0 || t[0] == '#' {
        None
    } else {
        match first_index(t, '=') {
            None => None,
            Some(i) => {
                let key = trim(t.take(i));
                if key.len() == 0 {
                    None
                } else {
                    Some((key, unquote(trim(t.skip(i + 1)))))
                }
            },
        }
    }
}

/// Parses the line `v[lo..hi]`; the result gives the bounds of its key and of its value.
pub fn parse_line_span(v: &Vec<char>, lo: usize, hi: usize) -> (r: Option<
    ((usize, usize), (usize, usize)),
>)
    requires
        lo <= hi <= v.len(),
    ensures
        match r {
            Some((k, x)) => {
                &&& k.0 <= k.1 <= v.len()
                &&& x.0 <= x.1 <= v.len()
                &&& parse_line(v@.subrange(lo as int, hi as int)) == Some(
                    (v@.subrange(k.0 as int, k.1 as int), v@.subrange(x.0 as int, x.1 as int)),
                )
            },
            None => parse_line(v@.subrange(lo as int, hi as int)) is None,
        },
{
    let (a, b) = trim_span(v, lo, hi);
    let ghost t = v@.subrange(a as int, b as int);
    if a == b || v[a] == '#' {
        return None;
    }
    let mut j = a;
    while j < b && v[j] != '='
        invariant
            a <= j <= b <= v.len(),
            forall|k: int| a <= k < j ==> v@[k] != '=',
        decreases b - j,
    {
        j += 1;
    }
    if j == b {
        proof {
            assert forall|k: int| 0 <= k < t.len() implies t[k] != '=' by {
                assert(t[k] == v@[a + k]);
            }
            assert(!t.contains('='));
        }
        return None;
    }
    proof {
        lemma_first_index_at(t, '=', j - a);
        assert(t.take(j - a) =~= v@.subrange(a as int, j as int));
        assert(t.skip(j - a + 1) =~= v@.subrange(j + 1, b as int));
    }
    let (ka, kb) = trim_span(v, a, j);
    if ka == kb {
        return None;
    }
    let (va, vb) = trim_span(v, j + 1, b);
    if vb - va >= 2 && ((v[va] == '"' && v[vb - 1] == '"') || (v[va] == '\'' && v[vb - 1]
        == '\'')) {
        assert(v@.subrange(va as int, vb as int).subrange(1, vb - va - 1) =~= v@.subrange(
            va + 1,
            vb - 1,
        ));
        Some(((ka, kb), (va + 1, vb - 1)))
    } else {
        Some(((ka, kb), (va, vb)))
    }
}

/// The key and value that `line` sets, if it sets one.
pub fn parse_env_line(line: &str) -> (r: Option<(&str, &str)>)
    ensures
        match r {
            Some((k, x)) => parse_line(line@) == Some((k@, x@)),
            None => parse_line(line@) is None,
        },
{
    let v = chars_of(line);
    let n = v.len();
    assert(v@.subrange(0, n as int) =~= line@);
    match parse_line_span(&v, 0, n) {
        Some((k, x)) => Some((line.substring_char(k.0, k.1), line.substring_char(x.0, x.1))),
        None => None,
    }
}


/// `cfg` after the line `line` of `.env`: a line that sets one of the model keys replaces it.
pub open spec fn apply_line(cfg: EnvSettings, line: Seq<char>) -> EnvSettings {
    match parse_line(line) {
        Some((k, x)) => if k == TEXT_MODEL_KEY@ {
            EnvSettings { text: x, image: cfg.image, video: cfg.video }
        } else if k == IMAGE_GENERATION_KEY@ {
            EnvSettings { text: cfg.text, image: x, video: cfg.video }
        } else if k == VIDEO_GENERATION_KEY@ {
            EnvSettings { text: cfg.text, image: cfg.image, video: x }
        } else {
            cfg
        },
        None => cfg,
    }
}

/// `cfg` after the lines `ls`, read from the first to the last.
pub open spec fn apply_lines(cfg: EnvSettings, ls: Seq<Seq<char>>) -> EnvSettings
    decreases ls.len(),
{
    if ls.len() == 0 {
        cfg
    } else {
        apply_line(apply_lines(cfg, ls.drop_last()), ls.last())
    }
}

/// The model keys that the lines `ls` set, read from the first to the last.
pub open spec fn load_lines(ls: Seq<Seq<char>>) -> EnvSettings {
    apply_lines(EnvSettings::empty(), ls)
}

/// The model keys that the text of a `.env` file sets; the last line that sets a key wins.
pub open spec fn load_env(content: Seq<char>) -> EnvSettings {
    load_lines(lines(content))
}

/// Reads the model keys out of the text of a `.env` file.
pub fn load_env_config(content: &str) -> (r: EnvConfig)
    ensures
        r@ == load_env(content@),
{
    let v = chars_of(content);
    let spans = line_spans(&v);
    let ghost ls = lines(v@);
    let mut config = EnvConfig::default();
    let n = spans.len();
    assert(ls.take(0) =~= Seq::<Seq<char>>::empty());
    for i in 0..n
        invariant
            n == spans.len(),
            v@ == content@,
            ls == lines(v@),
            spans_within(v@, spans@),
            spans_text(v@, spans@) == ls,
            config@ == load_lines(ls.take(i as int)),
    {
        let (lo, hi) = spans[i];
        assert(spans@[i as int].0 <= spans@[i as int].1 <= v@.len());
        assert(ls[i as int] == v@.subrange(lo as int, hi as int));
        assert(ls.take(i + 1).drop_last() =~= ls.take(i as int));
        assert(ls.take(i + 1).last() == ls[i as int]);
        match parse_line_span(&v, lo, hi) {
            Some((k, x)) => {
                let value = String::from_str(content.substring_char(x.0, x.1));
                if span_equals(&v, k.0, k.1, TEXT_MODEL_KEY) {
                    config.text_model_key = value;
                } else if span_equals(&v, k.0, k.1, IMAGE_GENERATION_KEY) {
                    config.image_generation_key = value;
                } else if span_equals(&v, k.0, k.1, VIDEO_GENERATION_KEY) {
                    config.video_generation_key = value;
                }
            },
            None => {},
        }
    }
    assert(ls.take(n as int) =~= ls);
    config
}

/// The value that the first line of `ls` that sets `target` gives it.
pub open spec fn find_value(ls: Seq<Seq<char>>, target: Seq<char>) -> Option<Seq<char>>
    decreases ls.len(),
{
    if ls.len() == 0 {
        None
    } else {
        match parse_line(ls[0]) {
            Some((k, x)) => if k == target {
                Some(x)
            } else {
                find_value(ls.drop_first(), target)
            },
            None => find_value(ls.drop_first(), target),
        }
    }
}

/// The value that the first line of `content` that sets `target` gives it; the result lies
/// inside `content`.
fn find_value_in<'a>(
    v: &Vec<char>,
    spans: &Vec<(usize, usize)>,
    content: &'a str,
    target: &str,
) -> (r: Option<&'a str>)
    requires
        v@ == content@,
        spans_within(v@, spans@),
        spans_text(v@, spans@) == lines(v@),
    ensures
        match r {
            Some(x) => find_value(lines(content@), target@) == Some(x@),
            None => find_value(lines(content@), target@) is None,
        },
{
    let ghost ls = lines(v@);
    let n = spans.len();
    assert(ls.skip(0) =~= ls);
    for i in 0..n
        invariant
            n == spans.len(),
            v@ == content@,
            ls == lines(v@),
            spans_within(v@, spans@),
            spans_text(v@, spans@) == ls,
            find_value(ls, target@) == find_value(ls.skip(i as int), target@),
    {
        let (lo, hi) = spans[i];
        assert(spans@[i as int].0 <= spans@[i as int].1 <= v@.len());
        assert(ls[i as int] == v@.subrange(lo as int, hi as int));
        assert(ls.skip(i as int)[0] == ls[i as int]);
        assert(ls.skip(i as int).drop_first() =~= ls.skip(i + 1));
        match parse_line_span(&v, lo, hi) {
            Some((k, x)) => {
                if span_equals(&v, k.0, k.1, target) {
                    return Some(content.substring_char(x.0, x.1));
                }
            },
            None => {},
        }
    }
    assert(ls.skip(n as int) =~= Seq::<Seq<char>>::empty());
    None
}

/// The value that the first line of `content` that sets `target_key` gives it.
pub fn find_env_value<'a>(content: &'a str, target_key: &str) -> (r: Option<&'a str>)
    ensures
        match r {
            Some(x) => find_value(lines(content@), target_key@) == Some(x@),
            None => find_value(lines(content@), target_key@) is None,
        },
{
    let v = chars_of(content);
    let spans = line_spans(&v);
    find_value_in(&v, &spans, content, target_key)
}


/// The keys that the launcher writes itself, and that it drops from the lines it keeps.
pub open spec fn is_managed_key(k: Seq<char>) -> bool {
    ||| k == TEXT_MODEL_KEY@
    ||| k == IMAGE_GENERATION_KEY@
    ||| k == VIDEO_GENERATION_KEY@
    ||| k == ALLOW_NETWORK_KEY@
    ||| k == JWT_SECRET_KEY@
}

/// Tells whether the key `v[lo..hi]` is one the launcher manages.
fn is_managed_span(v: &Vec<char>, lo: usize, hi: usize) -> (r: bool)
    requires
        lo <= hi <= v.len(),
    ensures
        r == is_managed_key(v@.subrange(lo as int, hi as int)),
{
    span_equals(v, lo, hi, TEXT_MODEL_KEY) || span_equals(v, lo, hi, IMAGE_GENERATION_KEY)
        || span_equals(v, lo, hi, VIDEO_GENERATION_KEY) || span_equals(v, lo, hi, ALLOW_NETWORK_KEY)
        || span_equals(v, lo, hi, JWT_SECRET_KEY)
}

/// Tells whether `key` is one the launcher manages.
pub fn is_launcher_managed_key(key: &str) -> (r: bool)
    ensures
        r == is_managed_key(key@),
{
    let v = chars_of(key);
    assert(v@.subrange(0, v@.len() as int) =~= v@);
    is_managed_span(&v, 0, v.len())
}

/// The line sets a key that the launcher manages.
pub open spec fn is_managed_line(l: Seq<char>) -> bool {
    match parse_line(l) {
        Some((k, _)) => is_managed_key(k),
        None => false,
    }
}

/// The lines of `ls` that set no managed key, in order.
pub open spec fn unmanaged_lines(ls: Seq<Seq<char>>) -> Seq<Seq<char>>
    decreases ls.len(),
{
    if ls.len() == 0 {
        seq![]
    } else if is_managed_line(ls.last()) {
        unmanaged_lines(ls.drop_last())
    } else {
        unmanaged_lines(ls.drop_last()).push(ls.last())
    }
}

/// A character that forces a value into quotes.
pub open spec fn forces_quotes(c: char) -> bool {
    is_space(c) || c == '"' || c == '\'' || c == '#'
}

/// `c` inside a double-quoted value: backslash and double quote get a backslash.
pub open spec fn escape_char(c: char) -> Seq<char> {
    if c == '\\' {
        seq!['\\', '\\']
    } else if c == '"' {
        seq!['\\', '"']
    } else {
        seq![c]
    }
}

/// `v` with each character escaped.
pub open spec fn escape(v: Seq<char>) -> Seq<char>
    decreases v.len(),
{
    if v.len() == 0 {
        seq![]
    } else {
        escape(v.drop_last()) + escape_char(v.last())
    }
}

/// How a value is written in `.env`: as it is, unless it holds whitespace, a quote or `#`; then
/// escaped inside double quotes.
pub open spec fn format_value(v: Seq<char>) -> Seq<char> {
    if exists|i: int| 0 <= i < v.len() && forces_quotes(v[i]) {
        seq!['"'] + escape(v) + seq!['"']
    } else {
        v
    }
}

/// Writes a value as `.env` holds it.
pub fn format_env_value(value: &str) -> (r: String)
    ensures
        r@ == format_value(value@),
{
    let v = chars_of(value);
    let n = v.len();
    let mut plain = true;
    let mut i: usize = 0;
    while i < n
        invariant
            n == v.len(),
            v@ == value@,
            i <= n,
            plain == forall|j: int| 0 <= j < i ==> !forces_quotes(v@[j]),
        decreases n - i,
    {
        let c = v[i];
        if is_space_char(c) || c == '"' || c == '\'' || c == '#' {
            plain = false;
        }
        i += 1;
    }
    if plain {
        return String::from_str(value);
    }
    proof {
        reveal_strlit("\"");
        reveal_strlit("\\\\");
        reveal_strlit("\\\"");
    }
    let mut out = String::from_str("\"");
    let mut k: usize = 0;
    assert(v@.take(0) =~= Seq::<char>::empty());
    while k < n
        invariant
            n == v.len(),
            v@ == value@,
            k <= n,
            out@ == seq!['"'] + escape(v@.take(k as int)),
        decreases n - k,
    {
        let c = v[k];
        let ghost before = out@;
        assert(v@.take(k + 1).drop_last() =~= v@.take(k as int));
        assert(v@.take(k + 1).last() == c);
        assert(escape(v@.take(k + 1)) == escape(v@.take(k as int)) + escape_char(c));
        if c == '\\' {
            out.append("\\\\");
            proof {
                reveal_strlit("\\\\");
            }
            assert("\\\\"@ =~= seq!['\\', '\\']);
        } else if c == '"' {
            out.append("\\\"");
            proof {
                reveal_strlit("\\\"");
            }
            assert("\\\""@ =~= seq!['\\', '"']);
        } else {
            out.append(value.substring_char(k, k + 1));
            assert(value@.subrange(k as int, k + 1) =~= seq![c]);
        }
        assert(out@ =~= seq!['"'] + escape(v@.take(k + 1)));
        k += 1;
    }
    out.append("\"");
    assert(v@.take(n as int) =~= v@);
    out
}

/// The line that writes `key` with `value`, if the trimmed value is not empty.
pub open spec fn key_value_lines(key: Seq<char>, value: Seq<char>) -> Seq<Seq<char>> {
    if trim(value).len() == 0 {
        seq![]
    } else {
        seq![key + seq!['='] + format_value(trim(value))]
    }
}

/// Adds the line that writes `key` with `value`, unless the trimmed value is empty.
pub fn push_key_value(lines: &mut Vec<String>, key: &str, value: &str)
    ensures
        final(lines).deep_view() == old(lines).deep_view() + key_value_lines(key@, value@),
{
    let v = chars_of(value);
    let (a, b) = trim_span(&v, 0, v.len());
    assert(v@.subrange(0, v@.len() as int) =~= value@);
    if a == b {
        assert(lines.deep_view() =~= old(lines).deep_view() + Seq::<Seq<char>>::empty());
        return;
    }
    let trimmed = value.substring_char(a, b);
    let formatted = format_env_value(trimmed);
    let mut line = String::from_str(key);
    proof {
        reveal_strlit("=");
    }
    line.append("=");
    line.append(formatted.as_str());
    assert(trimmed@ == trim(value@));
    assert("="@ =~= seq!['=']);
    assert(line@ == key@ + seq!['='] + format_value(trim(value@)));
    let ghost old_lines = lines.deep_view();
    lines.push(line);
    assert(lines.deep_view() =~= old_lines.push(key@ + seq!['='] + format_value(trim(value@))));
    assert(lines.deep_view() =~= old(lines).deep_view() + key_value_lines(key@, value@));
}


/// The existing secret is long enough to keep: at least 32 bytes of UTF-8.
pub open spec fn secret_is_reusable(existing: Seq<char>) -> bool {
    match find_value(lines(existing), JWT_SECRET_KEY@) {
        Some(x) => utf8_len(x) >= 32,
        None => false,
    }
}

/// The secret that rendering writes: the existing one where it can be kept, else `fresh`.
pub open spec fn jwt_secret_for(existing: Seq<char>, fresh: Seq<char>) -> Seq<char> {
    if secret_is_reusable(existing) {
        find_value(lines(existing), JWT_SECRET_KEY@)->0
    } else {
        fresh
    }
}

/// The lines of the `.env` file that the launcher writes over `existing`: the lines that set
/// no managed key, in order; then the model keys that are set; then the network switch and the
/// secret.
pub open spec fn rendered_lines(existing: Seq<char>, cfg: EnvSettings, fresh: Seq<char>) -> Seq<
    Seq<char>,
> {
    unmanaged_lines(lines(existing)) + key_value_lines(TEXT_MODEL_KEY@, cfg.text)
        + key_value_lines(IMAGE_GENERATION_KEY@, cfg.image) + key_value_lines(
        VIDEO_GENERATION_KEY@,
        cfg.video,
    ) + seq![
        ALLOW_NETWORK_KEY@ + seq!['=', '1'],
        JWT_SECRET_KEY@ + seq!['='] + jwt_secret_for(existing, fresh),
    ]
}

/// The `.env` file that the launcher writes over `existing`.
pub open spec fn render_env(existing: Seq<char>, cfg: EnvSettings, fresh: Seq<char>) -> Seq<
    char,
> {
    text_of_lines(rendered_lines(existing, cfg, fresh))
}

/// The lines joined, each ended by a newline.
fn join_lines(lines: &Vec<String>) -> (r: String)
    ensures
        r@ == text_of_lines(lines.deep_view()),
{
    let ghost ls = lines.deep_view();
    let mut out = String::new();
    let n = lines.len();
    proof {
        reveal_strlit("\n");
    }
    assert(ls.take(0) =~= Seq::<Seq<char>>::empty());
    for i in 0..n
        invariant
            n == lines.len(),
            ls == lines.deep_view(),
            out@ == text_of_lines(ls.take(i as int)),
    {
        assert(ls.take(i + 1).drop_last() =~= ls.take(i as int));
        assert(ls.take(i + 1).last() == lines@[i as int]@);
        out.append(lines[i].as_str());
        proof {
            reveal_strlit("\n");
        }
        out.append("\n");
        assert(out@ =~= text_of_lines(ls.take(i + 1)));
    }
    assert(ls.take(n as int) =~= ls);
    out
}

/// Writes `config` over the `.env` text `existing`, signing with the existing secret where it
/// can be kept and with `fresh_secret` otherwise.
pub fn render_env_config_with_secret(existing: &str, config: &EnvConfig, fresh_secret: &str) -> (r:
    String)
    ensures
        r@ == render_env(existing@, config@, fresh_secret@),
{
    let v = chars_of(existing);
    let spans = line_spans(&v);
    let ghost ls = lines(v@);
    let secret = match find_value_in(&v, &spans, existing, JWT_SECRET_KEY) {
        Some(x) => if utf8_len_at_least(x, 32) {
            x
        } else {
            fresh_secret
        },
        None => fresh_secret,
    };
    assert(secret@ == jwt_secret_for(existing@, fresh_secret@));
    let mut out: Vec<String> = Vec::new();
    let n = spans.len();
    assert(ls.take(0) =~= Seq::<Seq<char>>::empty());
    assert(out.deep_view() =~= Seq::<Seq<char>>::empty());
    for i in 0..n
        invariant
            n == spans.len(),
            v@ == existing@,
            ls == lines(v@),
            spans_within(v@, spans@),
            spans_text(v@, spans@) == ls,
            out.deep_view() == unmanaged_lines(ls.take(i as int)),
    {
        let (lo, hi) = spans[i];
        assert(spans@[i as int].0 <= spans@[i as int].1 <= v@.len());
        assert(ls[i as int] == v@.subrange(lo as int, hi as int));
        assert(ls.take(i + 1).drop_last() =~= ls.take(i as int));
        assert(ls.take(i + 1).last() == ls[i as int]);
        let managed = match parse_line_span(&v, lo, hi) {
            Some((k, _)) => is_managed_span(&v, k.0, k.1),
            None => false,
        };
        if !managed {
            let ghost before = out.deep_view();
            out.push(String::from_str(existing.substring_char(lo, hi)));
            assert(out.deep_view() =~= before.push(ls[i as int]));
        }
    }
    assert(ls.take(n as int) =~= ls);
    push_key_value(&mut out, TEXT_MODEL_KEY, config.text_model_key.as_str());
    push_key_value(&mut out, IMAGE_GENERATION_KEY, config.image_generation_key.as_str());
    push_key_value(&mut out, VIDEO_GENERATION_KEY, config.video_generation_key.as_str());
    let mut allow = String::from_str(ALLOW_NETWORK_KEY);
    proof {
        reveal_strlit("=1");
        reveal_strlit("=");
    }
    allow.append("=1");
    assert("=1"@ =~= seq!['=', '1']);
    assert("="@ =~= seq!['=']);
    let ghost before_allow = out.deep_view();
    out.push(allow);
    let mut jwt = String::from_str(JWT_SECRET_KEY);
    jwt.append("=");
    jwt.append(secret);
    assert(jwt@ == JWT_SECRET_KEY@ + seq!['='] + jwt_secret_for(existing@, fresh_secret@));
    let ghost before_jwt = out.deep_view();
    out.push(jwt);
    assert(out.deep_view() =~= before_allow.push(ALLOW_NETWORK_KEY@ + seq!['=', '1']).push(
        JWT_SECRET_KEY@ + seq!['='] + jwt_secret_for(existing@, fresh_secret@),
    ));
    assert(out.deep_view() =~= rendered_lines(existing@, config@, fresh_secret@));
    join_lines(&out)
}

/// Writes `config` over the `.env` text `existing`. The existing secret is kept where it is at
/// least 32 bytes long; otherwise a fresh one is made.
pub fn render_env_config(existing: &str, config: &EnvConfig) -> (r: String)
    ensures
        secret_is_reusable(existing@) ==> r@ == render_env(existing@, config@, Seq::empty()),
        !secret_is_reusable(existing@) ==> exists|fresh: Seq<char>|
            is_generated_secret(fresh) && r@ == render_env(existing@, config@, fresh),
{
    let reusable = match find_env_value(existing, JWT_SECRET_KEY) {
        Some(x) => utf8_len_at_least(x, 32),
        None => false,
    };
    if reusable {
        proof {
            reveal_strlit("");
        }
        render_env_config_with_secret(existing, config, "")
    } else {
        let fresh = generate_jwt_secret();
        render_env_config_with_secret(existing, config, fresh.as_str())
    }
}

} // verus!
