//! Where the diary lives: the `.env` file of a knowledge base names its base
//! directory in `RAG_BASE_PATH`, and the diary is the `日记` directory inside
//! it. The widget remembers which `.env` file was chosen in a configuration
//! file of its own.
use vstd::prelude::*;
use crate::error::DiaryError;
use crate::outside::{
    std_path_join, std_path_parent, std_path_is_absolute, path_join, path_parent, path_is_absolute,
};
use crate::text::{
    trim, strip_char, find_char, find_char_in, str_chars, trim_bounds, strip_bounds,
    range_equals, sub_vec, lemma_find_char, lemma_find_char_at, is_ws,
};
use crate::readback::lemma_trim_identity;

verus! {

/// The name of the diary directory inside the knowledge base.
pub const DIARY_DIR_NAME: &'static str = "日记";

/// The name of the widget's directory inside the system's configuration
/// directory.
pub const APP_DIR_NAME: &'static str = "diary-widget";

/// The name of the widget's configuration file.
pub const CONFIG_FILE_NAME: &'static str = "config.json";

/// The key that names the knowledge base's directory.
pub const RAG_KEY: &'static str = "RAG_BASE_PATH";

/// What the widget answers when asked for its configuration.
pub struct ConfigResponse {
    pub diary_dir: String,
}

/// What the widget stores in its configuration file.
pub struct StoredConfig {
    pub env_file_path: String,
}

/// The value that one line of a `.env` file gives `RAG_BASE_PATH`, if it
/// sets it: the line is trimmed; an empty line or one that starts with `#`
/// sets nothing; otherwise the text before the first `=`, trimmed, must be
/// the key, and the text after it, trimmed and then stripped of surrounding
/// `"` and then of surrounding `'`, is the value.
pub open spec fn line_value(line: Seq<char>) -> Option<Seq<char>> {
    let t = trim(line);
    let k = find_char(t, '=', 0);
    if t.len() == 0 || t[0] == '#' {
        None
    } else if k >= t.len() {
        None
    } else if trim(t.subrange(0, k)) == RAG_KEY@ {
        Some(strip_char(strip_char(trim(t.subrange(k + 1, t.len() as int)), '"'), '\''))
    } else {
        None
    }
}

/// The value of the first line of `s` from position `i` on that sets
/// `RAG_BASE_PATH`. Lines end at `\n`, as `str::lines` cuts them; the `\r`
/// that `str::lines` also drops is white space, which trimming removes.
pub open spec fn rag_value_from(s: Seq<char>, i: int) -> Option<Seq<char>>
    decreases s.len() - i,
{
    if i < 0 || i > s.len() {
        None
    } else {
        let j = find_char(s, '\n', i);
        proof {
            lemma_find_char(s, '\n', i);
        }
        match line_value(s.subrange(i, j)) {
            Some(v) => Some(v),
            None => if j >= s.len() {
                None
            } else {
                rag_value_from(s, j + 1)
            },
        }
    }
}

/// The knowledge base directory that the `.env` text `s` names: the value of
/// the first line that sets `RAG_BASE_PATH`, which must not be empty.
pub open spec fn rag_base_path(s: Seq<char>) -> Result<Seq<char>, DiaryError> {
    match rag_value_from(s, 0) {
        None => Err(DiaryError::RagBasePathMissing),
        Some(v) => if v.len() == 0 {
            Err(DiaryError::RagBasePathEmpty)
        } else {
            Ok(v)
        },
    }
}

/// The diary directory for the `.env` file at `env_path` with text
/// `contents`: the base directory it names, taken relative to the directory
/// of the `.env` file unless it is absolute, joined with `日记`. Paths are
/// judged, split and joined by `std::path`, under the rules of the platform
/// the crate is built for.
pub open spec fn diary_dir(env_path: Seq<char>, contents: Seq<char>) -> Result<
    Seq<char>,
    DiaryError,
> {
    match rag_base_path(contents) {
        Err(e) => Err(e),
        Ok(base) => if std_path_is_absolute(base) {
            Ok(std_path_join(base, DIARY_DIR_NAME@))
        } else {
            match std_path_parent(env_path) {
                None => Err(DiaryError::EnvDirUnknown),
                Some(dir) => Ok(std_path_join(std_path_join(dir, base), DIARY_DIR_NAME@)),
            }
        },
    }
}

/// The value that the line `s[lo..hi]` gives `RAG_BASE_PATH`, as bounds in `s`.
fn line_value_bounds(s: &Vec<char>, lo: usize, hi: usize, key: &Vec<char>) -> (r: Option<
    (usize, usize),
>)
    requires
        lo <= hi <= s.len(),
        key@ == RAG_KEY@,
    ensures
        match line_value(s@.subrange(lo as int, hi as int)) {
            Some(v) => r matches Some((a, b)) && a <= b <= s.len() && s@.subrange(
                a as int,
                b as int,
            ) == v,
            None => r is None,
        },
{
    let ghost line = s@.subrange(lo as int, hi as int);
    let (a, b) = trim_bounds(s, lo, hi);
    let ghost t = s@.subrange(a as int, b as int);
    if a == b || s[a] == '#' {
        return None;
    }
    let k = find_char_in(s, '=', a, b);
    proof {
        lemma_find_char(t, '=', 0);
        lemma_find_char(s@.subrange(0, b as int), '=', a as int);
        lemma_find_equiv(s@, '=', a as int, b as int);
    }
    if k >= b {
        return None;
    }
    let (ka, kb) = trim_bounds(s, a, k);
    assert(t.subrange(0, k - a) =~= s@.subrange(a as int, k as int));
    if !range_equals(s, ka, kb, key) {
        return None;
    }
    assert(t.subrange(k - a + 1, t.len() as int) =~= s@.subrange(k + 1, b as int));
    let (va, vb) = trim_bounds(s, k + 1, b);
    let (qa, qb) = strip_bounds(s, va, vb, '"');
    let (pa, pb) = strip_bounds(s, qa, qb, '\'');
    Some((pa, pb))
}

/// Searching inside a range and inside the text cut to that range agree.
proof fn lemma_find_equiv(s: Seq<char>, c: char, a: int, b: int)
    requires
        0 <= a <= b <= s.len(),
    ensures
        find_char(s.subrange(0, b), c, a) - a == find_char(s.subrange(a, b), c, 0),
    decreases b - a,
{
    let q = s.subrange(0, b);
    let t = s.subrange(a, b);
    if a < b {
        assert(q[a] == t[0]);
        if q[a] != c {
            lemma_find_equiv(s, c, a + 1, b);
            lemma_find_shift(t, c, 1);
            assert(t.subrange(1, t.len() as int) =~= s.subrange(a + 1, b));
        }
    }
}

/// Searching from `i` is searching the text from `i` on.
proof fn lemma_find_shift(t: Seq<char>, c: char, i: int)
    requires
        0 <= i <= t.len(),
    ensures
        find_char(t, c, i) - i == find_char(t.subrange(i, t.len() as int), c, 0),
    decreases t.len() - i,
{
    let u = t.subrange(i, t.len() as int);
    if i < t.len() {
        assert(u[0] == t[i]);
        if t[i] != c {
            lemma_find_shift(t, c, i + 1);
            lemma_find_shift(u, c, 1);
            assert(u.subrange(1, u.len() as int) =~= t.subrange(i + 1, t.len() as int));
        }
    }
}

/// The knowledge base directory that the text of a `.env` file names: the
/// value of the first line that sets `RAG_BASE_PATH`. A file without such a
/// line, or whose first such line sets an empty value, is refused.
pub fn parse_rag_base_path_from_env(env_contents: &str) -> (r: Result<String, DiaryError>)
    ensures
        match rag_base_path(env_contents@) {
            Ok(v) => r matches Ok(x) && x@ == v,
            Err(e) => r == Err::<String, DiaryError>(e),
        },
{
    match rag_base_path_chars(&str_chars(env_contents)) {
        Ok(v) => Ok(crate::outside::chars_to_string(&v)),
        Err(e) => Err(e),
    }
}

fn rag_base_path_chars(s: &Vec<char>) -> (r: Result<Vec<char>, DiaryError>)
    ensures
        match rag_base_path(s@) {
            Ok(v) => r matches Ok(x) && x@ == v,
            Err(e) => r == Err::<Vec<char>, DiaryError>(e),
        },
{
    let key = str_chars(RAG_KEY);
    let mut i: usize = 0;
    assert(s@.subrange(0, s.len() as int) =~= s@);
    loop
        invariant
            i <= s.len(),
            key@ == RAG_KEY@,
            s@.subrange(0, s.len() as int) == s@,
            rag_value_from(s@, i as int) == rag_value_from(s@, 0),
        decreases s.len() - i,
    {
        let j = find_char_in(s, '\n', i, s.len());
        proof {
            lemma_find_char(s@, '\n', i as int);
        }
        match line_value_bounds(s, i, j, &key) {
            Some((a, b)) => {
                if a == b {
                    return Err(DiaryError::RagBasePathEmpty);
                }
                return Ok(sub_vec(s, a, b));
            },
            None => {
                if j >= s.len() {
                    return Err(DiaryError::RagBasePathMissing);
                }
                i = j + 1;
            },
        }
    }
}

/// The diary directory for the `.env` file at `env_path`, whose text is
/// `env_contents`: the base directory that `RAG_BASE_PATH` names, taken
/// relative to the `.env` file's directory unless it is absolute, joined with
/// `日记`.
pub fn diary_dir_from_env_path(env_path: &str, env_contents: &str) -> (r: Result<String, DiaryError>)
    ensures
        match diary_dir(env_path@, env_contents@) {
            Ok(v) => r matches Ok(x) && x@ == v,
            Err(e) => r == Err::<String, DiaryError>(e),
        },
{
    let base = match rag_base_path_chars(&str_chars(env_contents)) {
        Ok(v) => v,
        Err(e) => {
            return Err(e);
        },
    };
    let base = crate::outside::chars_to_string(&base);
    if path_is_absolute(base.as_str()) {
        return Ok(path_join(base.as_str(), DIARY_DIR_NAME));
    }
    match path_parent(env_path) {
        None => Err(DiaryError::EnvDirUnknown),
        Some(dir) => {
            let resolved = path_join(dir.as_str(), base.as_str());
            Ok(path_join(resolved.as_str(), DIARY_DIR_NAME))
        },
    }
}

/// The widget's configuration directory inside the system's configuration
/// directory `system_config_dir`; refused where the system has none.
pub fn app_config_dir(system_config_dir: Option<&str>) -> (r: Result<String, DiaryError>)
    ensures
        match system_config_dir {
            Some(b) => r matches Ok(x) && x@ == std_path_join(b@, APP_DIR_NAME@),
            None => r == Err::<String, DiaryError>(DiaryError::ConfigDirUnknown),
        },
{
    match system_config_dir {
        None => Err(DiaryError::ConfigDirUnknown),
        Some(b) => Ok(path_join(b, APP_DIR_NAME)),
    }
}

/// The widget's configuration file inside its configuration directory.
pub fn app_config_file(config_dir: &str) -> (r: String)
    ensures
        r@ == std_path_join(config_dir@, CONFIG_FILE_NAME@),
{
    path_join(config_dir, CONFIG_FILE_NAME)
}

impl StoredConfig {
    /// The configuration that remembers the `.env` file at `env_file_path`.
    pub fn for_env_file(env_file_path: &str) -> (r: StoredConfig)
        ensures
            r.env_file_path@ == env_file_path@,
    {
        StoredConfig { env_file_path: String::from_str(env_file_path) }
    }
}

impl ConfigResponse {
    /// The answer for the `.env` file at `env_path` whose text is
    /// `env_contents`: its diary directory.
    pub fn for_env_file(env_path: &str, env_contents: &str) -> (r: Result<ConfigResponse, DiaryError>)
        ensures
            match diary_dir(env_path@, env_contents@) {
                Ok(v) => r matches Ok(x) && x.diary_dir@ == v,
                Err(e) => r matches Err(x) && x == e,
            },
    {
        match diary_dir_from_env_path(env_path, env_contents) {
            Ok(d) => Ok(ConfigResponse { diary_dir: d }),
            Err(e) => Err(e),
        }
    }
}

/// A `.env` text whose first line sets `RAG_BASE_PATH` to `v` names `v` as
/// the knowledge base, whatever follows that line, where `v` is a whole line
/// value that trimming and quote stripping leave alone: not empty, no line
/// break, no white space or quote at either end. White space inside `v`,
/// `=` and `#` inside it are kept.
pub proof fn law_setting_line_value(v: Seq<char>, rest: Seq<char>)
    requires
        v.len() > 0,
        forall|k: int| 0 <= k < v.len() ==> v[k] != '\n',
        !is_ws(v[0]),
        !is_ws(v.last()),
        v[0] != '"' && v[0] != '\'',
        v.last() != '"' && v.last() != '\'',
    ensures
        rag_base_path(RAG_KEY@ + seq!['='] + v) == Ok::<Seq<char>, DiaryError>(v),
        rag_base_path(RAG_KEY@ + seq!['='] + v + seq!['\n'] + rest) == Ok::<Seq<char>, DiaryError>(v),
{
    reveal_strlit("RAG_BASE_PATH");
    let key = RAG_KEY@;
    let line = key + seq!['='] + v;
    let n = key.len() as int;
    assert(n == 13);
    assert forall|k: int| 0 <= k < line.len() implies line[k] != '\n' by {
        if k > n {
            assert(line[k] == v[k - n - 1]);
        }
    }
    assert(line.last() == v.last());
    lemma_trim_identity(line);
    assert forall|k: int| 0 <= k < n implies line[k] != '=' by {}
    assert(line[n] == '=');
    lemma_find_char_at(line, '=', 0, n);
    assert(line.subrange(0, n) =~= key);
    lemma_trim_identity(key);
    assert(line.subrange(n + 1, line.len() as int) =~= v);
    lemma_trim_identity(v);
    assert(strip_char(v, '"') == v);
    assert(strip_char(v, '\'') == v);
    assert(line_value(line) == Some(v));
    // A text of that one line.
    lemma_find_char(line, '\n', 0);
    assert(line.subrange(0, line.len() as int) =~= line);
    assert(rag_value_from(line, 0) == Some(v));
    // The line followed by a line break and more text.
    let s = line + seq!['\n'] + rest;
    assert forall|k: int| 0 <= k < line.len() implies s[k] != '\n' by {
        assert(s[k] == line[k]);
    }
    lemma_find_char_at(s, '\n', 0, line.len() as int);
    assert(s.subrange(0, line.len() as int) =~= line);
    assert(rag_value_from(s, 0) == Some(v));
}

proof fn lemma_find_char_suffix(a: Seq<char>, b: Seq<char>, c: char, i: int)
    requires
        0 <= i <= b.len(),
    ensures
        find_char(a + b, c, a.len() + i) == a.len() + find_char(b, c, i),
    decreases b.len() - i,
{
    if i < b.len() {
        assert((a + b)[a.len() + i] == b[i]);
        lemma_find_char_suffix(a, b, c, i + 1);
    }
}

/// Reading the settings from a line on does not depend on the text before it.
proof fn lemma_rag_suffix(a: Seq<char>, b: Seq<char>, i: int)
    requires
        0 <= i <= b.len(),
    ensures
        rag_value_from(a + b, a.len() + i) == rag_value_from(b, i),
    decreases b.len() - i,
{
    let s = a + b;
    lemma_find_char_suffix(a, b, '\n', i);
    lemma_find_char(b, '\n', i);
    let j = find_char(b, '\n', i);
    assert(s.subrange(a.len() + i, a.len() + j) =~= b.subrange(i, j));
    if j < b.len() {
        lemma_rag_suffix(a, b, j + 1);
    }
}

/// The line `line` and a line break, then `rest`: the line's value where it
/// sets `RAG_BASE_PATH`, else what `rest` sets.
proof fn lemma_rag_first_line(line: Seq<char>, rest: Seq<char>)
    requires
        forall|k: int| 0 <= k < line.len() ==> line[k] != '\n',
    ensures
        rag_value_from(line + seq!['\n'] + rest, 0) == match line_value(line) {
            Some(v) => Some(v),
            None => rag_value_from(rest, 0),
        },
{
    let a = line + seq!['\n'];
    let s = a + rest;
    assert forall|k: int| 0 <= k < line.len() implies s[k] != '\n' by {
        assert(s[k] == line[k]);
    }
    assert(s[line.len() as int] == '\n');
    lemma_find_char_at(s, '\n', 0, line.len() as int);
    assert(s.subrange(0, line.len() as int) =~= line);
    lemma_rag_suffix(a, rest, 0);
}

/// A line that is blank, a comment, holds no `=`, or sets a key other than
/// `RAG_BASE_PATH` is passed over: the text reads as what follows it.
pub proof fn law_other_line_skipped(c: Seq<char>, rest: Seq<char>)
    requires
        forall|k: int| 0 <= k < c.len() ==> c[k] != '\n',
        ({
            let t = trim(c);
            let e = find_char(t, '=', 0);
            ||| t.len() == 0
            ||| t[0] == '#'
            ||| e >= t.len()
            ||| trim(t.subrange(0, e)) != RAG_KEY@
        }),
    ensures
        rag_base_path(c + seq!['\n'] + rest) == rag_base_path(rest),
{
    lemma_rag_first_line(c, rest);
    assert(line_value(c) is None);
}

/// A value in double or single quotes, as a whole line value, is read
/// without its quotes.
pub proof fn law_quoted_value(v: Seq<char>, quote: char, rest: Seq<char>)
    requires
        quote == '"' || quote == '\'',
        v.len() > 0,
        forall|k: int| 0 <= k < v.len() ==> v[k] != '\n',
        !is_ws(v[0]),
        !is_ws(v.last()),
        v[0] != '"' && v[0] != '\'',
        v.last() != '"' && v.last() != '\'',
    ensures
        rag_base_path(RAG_KEY@ + seq!['='] + seq![quote] + v + seq![quote] + seq!['\n'] + rest)
            == Ok::<Seq<char>, DiaryError>(v),
{
    reveal_strlit("RAG_BASE_PATH");
    let key = RAG_KEY@;
    let qv = seq![quote] + v + seq![quote];
    let line = key + seq!['='] + qv;
    let n = key.len() as int;
    assert forall|k: int| 0 <= k < line.len() implies line[k] != '\n' by {
        if n + 1 < k < line.len() - 1 {
            assert(line[k] == v[k - n - 2]);
        }
    }
    assert(line.last() == quote);
    lemma_trim_identity(line);
    assert forall|k: int| 0 <= k < n implies line[k] != '=' by {}
    lemma_find_char_at(line, '=', 0, n);
    assert(line.subrange(0, n) =~= key);
    lemma_trim_identity(key);
    assert(line.subrange(n + 1, line.len() as int) =~= qv);
    lemma_trim_identity(qv);
    let inner = v + seq![quote];
    assert(qv.drop_first() =~= inner);
    assert(inner.drop_last() =~= v);
    assert(inner[0] == v[0]);
    assert(qv[0] == quote && inner.last() == quote);
    if quote == '"' {
        assert(crate::text::strip_char_start(inner, '"') == inner);
        assert(crate::text::strip_char_start(qv, '"') == inner);
        assert(crate::text::strip_char_end(v, '"') == v);
        assert(crate::text::strip_char_end(inner, '"') == v);
        assert(strip_char(qv, '"') == v);
        assert(strip_char(v, '\'') == v);
    } else {
        assert(strip_char(qv, '"') == qv);
        assert(crate::text::strip_char_start(inner, '\'') == inner);
        assert(crate::text::strip_char_start(qv, '\'') == inner);
        assert(crate::text::strip_char_end(v, '\'') == v);
        assert(crate::text::strip_char_end(inner, '\'') == v);
        assert(strip_char(qv, '\'') == v);
    }
    assert(line_value(line) == Some(v));
    lemma_rag_first_line(line, rest);
    assert(line + seq!['\n'] + rest =~= key + seq!['='] + seq![quote] + v + seq![quote] + seq!['\n'] + rest);
}

} // verus!
