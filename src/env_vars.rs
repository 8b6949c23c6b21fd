//! The public environment variables: each configured name, in order and without repeats,
//! with its value in the environment.
use vstd::prelude::*;
use vstd::string::*;

verus! {

/// Lexicographic order of strings, character by character.
pub open spec fn lex_lt(a: Seq<char>, b: Seq<char>) -> bool
    decreases a.len(),
{
    if b.len() == 0 {
        false
    } else if a.len() == 0 {
        true
    } else if a[0] != b[0] {
        (a[0] as int) < (b[0] as int)
    } else {
        lex_lt(a.drop_first(), b.drop_first())
    }
}

/// Each string is before the next one.
pub open spec fn ascending(s: Seq<Seq<char>>) -> bool {
    forall|i: int| 0 <= i < s.len() - 1 ==> lex_lt(#[trigger] s[i], s[i + 1])
}

/// The views of a vector of strings.
pub open spec fn string_views(v: Seq<String>) -> Seq<Seq<char>> {
    v.map_values(|s: String| s@)
}

/// The value of `key` in `vars`: that of its last occurrence, or empty.
pub open spec fn env_value(vars: Seq<(Seq<char>, Seq<char>)>, key: Seq<char>) -> Seq<char>
    decreases vars.len(),
{
    if vars.len() == 0 {
        seq![]
    } else if vars.last().0 == key {
        vars.last().1
    } else {
        env_value(vars.drop_last(), key)
    }
}

/// The views of a vector of name-value pairs.
pub open spec fn pair_views(v: Seq<(String, String)>) -> Seq<(Seq<char>, Seq<char>)> {
    v.map_values(|p: (String, String)| (p.0@, p.1@))
}

/// `entries` holds one `name=value` string per name of `names`, in ascending order of
/// names and without repeats, the value being the name's in `vars`.
pub open spec fn env_entries_post(
    names: Seq<Seq<char>>,
    vars: Seq<(Seq<char>, Seq<char>)>,
    entries: Seq<Seq<char>>,
) -> bool {
    exists|keys: Seq<Seq<char>>|
        {
            &&& ascending(keys)
            &&& forall|s: Seq<char>| #[trigger] keys.contains(s) <==> names.contains(s)
            &&& entries.len() == keys.len()
            &&& forall|i: int| 0 <= i < keys.len() ==> #[trigger] entries[i] == keys[i] + seq!['='] + env_value(vars, keys[i])
        }
}

/// Why the configured variable names could not be read.
#[derive(Debug)]
pub enum EnvConfigError {
    /// The configuration is not valid TOML.
    Parse(toml::de::Error),
    /// It has no `variables` entry.
    MissingVariables,
    /// Its `variables` entry is not an array.
    NotAnArray,
    /// An element of `variables` is not a string.
    NotAString,
}

/// The parsed configuration, carried through opaquely.
#[verifier::external_type_specification]
#[verifier::external_body]
pub struct ExTomlValue(toml::Value);

/// A TOML parse error, carried through opaquely.
#[verifier::external_type_specification]
#[verifier::external_body]
pub struct ExTomlError(toml::de::Error);

/// Relies on `toml::from_str`: parses the configuration text into a TOML value.
#[verifier::external_body]
fn parse_toml(text: &str) -> (r: Result<toml::Value, toml::de::Error>) {
    toml::from_str(text)
}

/// Relies on `toml::Value::get`: the entry under `key` of a table.
#[verifier::external_body]
fn toml_get<'a>(v: &'a toml::Value, key: &str) -> (r: Option<&'a toml::Value>) {
    v.get(key)
}

/// Relies on `toml::Value::as_array`: the elements of an array.
#[verifier::external_body]
fn toml_as_array<'a>(v: &'a toml::Value) -> (r: Option<&'a Vec<toml::Value>>) {
    v.as_array()
}

/// Relies on `toml::Value::as_str`: the text of a string.
#[verifier::external_body]
fn toml_as_str<'a>(v: &'a toml::Value) -> (r: Option<&'a str>) {
    v.as_str()
}

/// The names listed in the `variables` array of the configuration text.
pub fn variable_names(config: &str) -> (r: Result<Vec<String>, EnvConfigError>) {
    let value = match parse_toml(config) {
        Ok(v) => v,
        Err(e) => return Err(EnvConfigError::Parse(e)),
    };
    let listed = match toml_get(&value, "variables") {
        Some(v) => v,
        None => return Err(EnvConfigError::MissingVariables),
    };
    let items = match toml_as_array(listed) {
        Some(a) => a,
        None => return Err(EnvConfigError::NotAnArray),
    };
    let mut names: Vec<String> = Vec::new();
    let mut i: usize = 0;
    while i < items.len()
        decreases items@.len() - i,
    {
        match toml_as_str(&items[i]) {
            Some(s) => names.push(String::from_str(s)),
            None => return Err(EnvConfigError::NotAString),
        }
        i = i + 1;
    }
    Ok(names)
}

/// The public environment entries for the configuration text: one `name=value` per
/// configured name, in ascending order and without repeats, with its value in `vars`.
pub fn get_public_env_vars(config: &str, vars: &Vec<(String, String)>) -> (r: Result<Vec<String>, EnvConfigError>)
    ensures
        r is Ok ==> exists|names: Seq<Seq<char>>| #[trigger] env_entries_post(
            names,
            pair_views(vars@),
            string_views((r->Ok_0)@),
        ),
{
    let names = match variable_names(config) {
        Ok(n) => n,
        Err(e) => return Err(e),
    };
    let entries = public_env_entries(&names, vars);
    assert(env_entries_post(string_views(names@), pair_views(vars@), string_views(entries@)));
    let r: Result<Vec<String>, EnvConfigError> = Ok(entries);
    assert(string_views((r->Ok_0)@) == string_views(entries@));
    assert(exists|n: Seq<Seq<char>>| #[trigger] env_entries_post(n, pair_views(vars@), string_views((r->Ok_0)@)));
    r
}

/// Two different strings are ordered one way or the other.
pub proof fn lemma_lex_total(a: Seq<char>, b: Seq<char>)
    requires
        a != b,
    ensures
        lex_lt(a, b) || lex_lt(b, a),
    decreases a.len(),
{
    if a.len() == 0 {
        if b.len() == 0 {
            assert(a =~= b);
        }
    } else if b.len() == 0 {
    } else if a[0] != b[0] {
    } else {
        if a.drop_first() == b.drop_first() {
            assert(a =~= seq![a[0]] + a.drop_first());
            assert(b =~= seq![b[0]] + b.drop_first());
        }
        lemma_lex_total(a.drop_first(), b.drop_first());
    }
}

/// Whether `a` comes before `b`.
pub fn str_lt(a: &String, b: &String) -> (r: bool)
    ensures
        r == lex_lt(a@, b@),
{
    let x = a.as_str();
    let y = b.as_str();
    let n = x.unicode_len();
    let m = y.unicode_len();
    let mut i: usize = 0;
    assert(a@.skip(0) =~= a@ && b@.skip(0) =~= b@);
    while i < n && i < m
        invariant
            i <= n,
            i <= m,
            n == a@.len(),
            m == b@.len(),
            x@ == a@,
            y@ == b@,
            lex_lt(a@, b@) == lex_lt(a@.skip(i as int), b@.skip(i as int)),
        decreases n - i,
    {
        let c = x.get_char(i);
        let d = y.get_char(i);
        assert(a@.skip(i as int)[0] == c && b@.skip(i as int)[0] == d);
        if c != d {
            return (c as u32) < (d as u32);
        }
        assert(a@.skip(i as int).drop_first() =~= a@.skip(i as int + 1));
        assert(b@.skip(i as int).drop_first() =~= b@.skip(i as int + 1));
        i = i + 1;
    }
    i < m
}

/// Inserts a copy of `key` into the ascending `keys`, unless it is there already.
fn insert_key(keys: &mut Vec<String>, key: &String)
    requires
        ascending(string_views(old(keys)@)),
    ensures
        ascending(string_views(final(keys)@)),
        forall|s: Seq<char>| #[trigger] string_views(final(keys)@).contains(s) <==> (string_views(
            old(keys)@,
        ).contains(s) || s == key@),
{
    let ghost orig = string_views(keys@);
    let mut p: usize = 0;
    while p < keys.len() && str_lt(&keys[p], key)
        invariant
            p <= keys@.len(),
            string_views(keys@) == orig,
            orig == string_views(old(keys)@),
            forall|k: int| 0 <= k < p ==> lex_lt(#[trigger] orig[k], key@),
        decreases keys@.len() - p,
    {
        assert(orig[p as int] == keys@[p as int]@);
        p = p + 1;
    }
    if p < keys.len() && keys[p] == *key {
        assert(orig[p as int] == key@);
        assert(orig.contains(key@));
        return;
    }
    let ghost before = orig;
    keys.insert(p, key.clone());
    let ghost now = string_views(keys@);
    assert(now =~= before.insert(p as int, key@));
    proof {
        if p < before.len() {
            assert(before[p as int] != key@);
            lemma_lex_total(before[p as int], key@);
        }
    }
    assert forall|i: int| 0 <= i < now.len() - 1 implies lex_lt(#[trigger] now[i], now[i + 1]) by {
        if i + 1 < p {
            assert(now[i] == before[i] && now[i + 1] == before[i + 1]);
        } else if i + 1 == p {
            assert(now[i] == before[i]);
        } else if i > p {
            assert(now[i] == before[i - 1] && now[i + 1] == before[i]);
        }
    }
    assert forall|s: Seq<char>| #[trigger] now.contains(s) <==> (old(keys)@.map_values(|x: String| x@).contains(s) || s == key@) by {
        if now.contains(s) {
            let k = choose|k: int| 0 <= k < now.len() && now[k] == s;
            if k < p {
                assert(before[k] == s);
            } else if k > p {
                assert(before[k - 1] == s);
            }
        }
        if before.contains(s) {
            let k = choose|k: int| 0 <= k < before.len() && before[k] == s;
            if k < p {
                assert(now[k] == s);
            } else {
                assert(now[k + 1] == s);
            }
        }
        if s == key@ {
            assert(now[p as int] == s);
        }
    }
}

/// The names of `names`, in ascending order and without repeats.
pub fn sorted_unique(names: &Vec<String>) -> (r: Vec<String>)
    ensures
        ascending(string_views(r@)),
        forall|s: Seq<char>| #[trigger] string_views(r@).contains(s) <==> string_views(names@).contains(s),
{
    let mut keys: Vec<String> = Vec::new();
    let mut i: usize = 0;
    while i < names.len()
        invariant
            i <= names@.len(),
            ascending(string_views(keys@)),
            forall|s: Seq<char>| #[trigger] string_views(keys@).contains(s) <==> string_views(names@).take(i as int).contains(s),
        decreases names@.len() - i,
    {
        let ghost oldk = string_views(keys@);
        insert_key(&mut keys, &names[i]);
        let ghost t = string_views(names@).take(i as int + 1);
        assert(t =~= string_views(names@).take(i as int).push(names@[i as int]@));
        assert forall|s: Seq<char>| #[trigger] string_views(keys@).contains(s) <==> t.contains(s) by {
            assert(string_views(keys@).contains(s) <==> (oldk.contains(s) || s == names@[i as int]@));
            assert(oldk.contains(s) <==> string_views(names@).take(i as int).contains(s));
            if t.contains(s) {
                let k = choose|k: int| 0 <= k < t.len() && t[k] == s;
                if k < i {
                    assert(string_views(names@).take(i as int)[k] == s);
                }
            }
            if string_views(names@).take(i as int).contains(s) {
                let k = choose|k: int| 0 <= k < i && string_views(names@).take(i as int)[k] == s;
                assert(t[k] == s);
            }
            if s == names@[i as int]@ {
                assert(t[i as int] == s);
            }
        }
        i = i + 1;
    }
    assert(string_views(names@).take(names@.len() as int) =~= string_views(names@));
    keys
}

/// The value of `key` among `vars`: that of its last occurrence, or empty.
pub fn lookup_env(vars: &Vec<(String, String)>, key: &String) -> (r: String)
    ensures
        r@ == env_value(pair_views(vars@), key@),
{
    let ghost src = pair_views(vars@);
    let mut found = String::new();
    let mut i: usize = 0;
    while i < vars.len()
        invariant
            i <= vars@.len(),
            src == pair_views(vars@),
            found@ == env_value(src.take(i as int), key@),
        decreases vars@.len() - i,
    {
        proof {
            assert(src.take(i as int + 1).drop_last() =~= src.take(i as int));
            assert(src.take(i as int + 1).last() == src[i as int]);
            assert(src[i as int] == (vars@[i as int].0@, vars@[i as int].1@));
        }
        if vars[i].0 == *key {
            found = vars[i].1.clone();
        }
        i = i + 1;
    }
    assert(src.take(src.len() as int) =~= src);
    found
}

/// One `name=value` entry per configured name, in ascending order of names and without
/// repeats, the value being the name's in `vars` (empty where it has none).
pub fn public_env_entries(names: &Vec<String>, vars: &Vec<(String, String)>) -> (r: Vec<String>)
    ensures
        env_entries_post(string_views(names@), pair_views(vars@), string_views(r@)),
{
    let keys = sorted_unique(names);
    let mut out: Vec<String> = Vec::new();
    let mut i: usize = 0;
    let eq = "=";
    proof {
        reveal_strlit("=");
    }
    while i < keys.len()
        invariant
            i <= keys@.len(),
            eq@ == seq!['='],
            out@.len() == i,
            forall|k: int|
                0 <= k < i ==> (#[trigger] out@[k])@ == keys@[k]@ + seq!['='] + env_value(
                    pair_views(vars@),
                    keys@[k]@,
                ),
        decreases keys@.len() - i,
    {
        let mut entry = String::new();
        entry.append(keys[i].as_str());
        entry.append(eq);
        let value = lookup_env(vars, &keys[i]);
        entry.append(value.as_str());
        assert(entry@ =~= keys@[i as int]@ + seq!['='] + env_value(pair_views(vars@), keys@[i as int]@));
        out.push(entry);
        i = i + 1;
    }
    let ghost ks = string_views(keys@);
    assert(forall|k: int| 0 <= k < ks.len() ==> #[trigger] ks[k] == keys@[k]@);
    assert(forall|k: int| 0 <= k < ks.len() ==> #[trigger] string_views(out@)[k] == out@[k]@);
    out
}

} // verus!
