//! The enabled-mod resolver: reads the world configuration text and
//! returns the names of the mods it enables — the keys of the form
//! `load_mod_<name>` whose value is exactly `"true"`.

use vstd::prelude::*;
use crate::error::StoreError;
use crate::strings::{spec_has_prefix, str_has_prefix, str_eq, string_views};

verus! {

/// The key/value pairs of the top-level section of an INI document, in
/// document order. The parse is a function of the text alone.
pub uninterp spec fn ini_general_of(text: Seq<char>) -> Seq<(Seq<char>, Seq<char>)>;

/// True when the text is a well-formed INI document. Whether a parse
/// succeeds is a function of the text alone.
pub uninterp spec fn ini_parses(text: Seq<char>) -> bool;

/// The views of a list of key/value string pairs.
pub open spec fn pair_views(pairs: Seq<(String, String)>) -> Seq<(Seq<char>, Seq<char>)> {
    pairs.map_values(|p: (String, String)| (p.0@, p.1@))
}

/// Relies on ini::Ini::load_from_str and ini::Ini::general_section: parses
/// an INI document and hands back the top-level section's key/value pairs
/// in document order; on a malformed document, the parser's message. The
/// parser is deterministic: it succeeds exactly on well-formed text.
#[verifier::external_body]
fn parse_general_section(text: &str) -> (r: Result<Vec<(String, String)>, String>)
    ensures
        r is Ok <==> ini_parses(text@),
        r matches Ok(pairs) ==> pair_views(pairs@) == ini_general_of(text@),
{
    match ini::Ini::load_from_str(text) {
        Ok(doc) => Ok(
            doc.general_section().iter().map(|(k, v)| (k.to_string(), v.to_string())).collect(),
        ),
        Err(e) => Err(format!("{}", e)),
    }
}

/// The mod names enabled by a list of key/value pairs: for each key
/// `load_mod_<name>` whose value is exactly `true`, the `<name>` part, in
/// document order.
pub open spec fn spec_enabled_mods(pairs: Seq<(Seq<char>, Seq<char>)>) -> Seq<Seq<char>>
    decreases pairs.len(),
{
    if pairs.len() == 0 {
        Seq::<Seq<char>>::empty()
    } else {
        let rest = spec_enabled_mods(pairs.drop_first());
        if spec_has_prefix(pairs[0].0, "load_mod_"@) && pairs[0].1 == "true"@ {
            seq![pairs[0].0.skip("load_mod_"@.len() as int)] + rest
        } else {
            rest
        }
    }
}

/// Extracts the enabled mod names from key/value pairs.
pub fn enabled_mods_of(pairs: &Vec<(String, String)>) -> (r: Vec<String>)
    ensures
        string_views(r@) == spec_enabled_mods(pair_views(pairs@)),
{
    let ghost all = pair_views(pairs@);
    let mut r: Vec<String> = Vec::new();
    let mut i: usize = 0;
    proof {
        reveal_strlit("load_mod_");
        assert(all.skip(0) =~= all);
        assert(string_views(r@) =~= Seq::<Seq<char>>::empty());
    }
    while i < pairs.len()
        invariant
            i <= pairs.len(),
            all == pair_views(pairs@),
            all.len() == pairs@.len(),
            "load_mod_"@.len() == 9,
            string_views(r@) + spec_enabled_mods(all.skip(i as int)) == spec_enabled_mods(all),
        decreases pairs.len() - i,
    {
        let key = &pairs[i].0;
        let value = &pairs[i].1;
        proof {
            assert(all[i as int] == (key@, value@));
            assert(all.skip(i as int)[0] == all[i as int]);
            assert(all.skip(i as int).drop_first() =~= all.skip(i + 1));
        }
        if str_has_prefix(key.as_str(), "load_mod_") && str_eq(value.as_str(), "true") {
            let key_len = key.as_str().unicode_len();
            let name = key.as_str().substring_char(9, key_len);
            let name_string = name.to_owned();
            r.push(name_string);
            proof {
                assert(name@ =~= key@.skip(9));
                assert(string_views(r@) =~= string_views(r@.drop_last()) + seq![key@.skip(9)]);
            }
        }
        i = i + 1;
    }
    proof {
        assert(all.skip(pairs@.len() as int).len() == 0);
        assert(spec_enabled_mods(all.skip(pairs@.len() as int)) =~= Seq::<Seq<char>>::empty());
        assert(string_views(r@) =~= string_views(r@) + spec_enabled_mods(
            all.skip(pairs@.len() as int),
        ));
    }
    r
}

/// A key holds the prefix and names `n` exactly when it is the prefix
/// followed by `n`.
proof fn lemma_key_shape(k: Seq<char>, n: Seq<char>)
    ensures
        (spec_has_prefix(k, "load_mod_"@) && k.skip("load_mod_"@.len() as int) == n) <==> k
            == "load_mod_"@ + n,
{
    let p = "load_mod_"@;
    if spec_has_prefix(k, p) && k.skip(p.len() as int) == n {
        assert forall|j: int| 0 <= j < k.len() implies k[j] == (p + n)[j] by {
            if j < p.len() {
                assert(k.subrange(0, p.len() as int)[j] == k[j]);
            } else {
                assert(k.skip(p.len() as int)[j - p.len()] == k[j]);
            }
        }
        assert(k =~= p + n);
    }
    if k == p + n {
        assert(k.subrange(0, p.len() as int) =~= p);
        assert(k.skip(p.len() as int) =~= n);
    }
}

/// Law: a mod name is enabled exactly when some key/value pair is the
/// key `load_mod_<name>` with the value exactly `true`.
pub proof fn lemma_enabled_iff(pairs: Seq<(Seq<char>, Seq<char>)>, n: Seq<char>)
    ensures
        spec_enabled_mods(pairs).contains(n) <==> exists|i: int|
            0 <= i < pairs.len() && (#[trigger] pairs[i]).0 == "load_mod_"@ + n && pairs[i].1
                == "true"@,
    decreases pairs.len(),
{
    let p = "load_mod_"@;
    let e = spec_enabled_mods(pairs);
    if pairs.len() > 0 {
        let rest_pairs = pairs.drop_first();
        lemma_enabled_iff(rest_pairs, n);
        let rest = spec_enabled_mods(rest_pairs);
        lemma_key_shape(pairs[0].0, n);
        let head_matches = spec_has_prefix(pairs[0].0, p) && pairs[0].1 == "true"@;
        if e.contains(n) {
            let j = choose|j: int| 0 <= j < e.len() && e[j] == n;
            if head_matches && j == 0 {
                assert(pairs[0].0.skip(p.len() as int) == n);
                assert(pairs[0].0 == p + n && pairs[0].1 == "true"@);
            } else {
                let jr: int = if head_matches {
                    j - 1
                } else {
                    j
                };
                assert(rest[jr] == n);
                assert(rest.contains(n));
                let i = choose|i: int|
                    0 <= i < rest_pairs.len() && (#[trigger] rest_pairs[i]).0 == p + n
                        && rest_pairs[i].1 == "true"@;
                assert(pairs[i + 1] == rest_pairs[i]);
                assert(pairs[i + 1].0 == p + n && pairs[i + 1].1 == "true"@);
            }
        }
        if exists|i: int|
            0 <= i < pairs.len() && (#[trigger] pairs[i]).0 == p + n && pairs[i].1 == "true"@ {
            let i = choose|i: int|
                0 <= i < pairs.len() && (#[trigger] pairs[i]).0 == p + n && pairs[i].1 == "true"@;
            if i == 0 {
                assert(head_matches);
                assert(e[0] == pairs[0].0.skip(p.len() as int));
                assert(e[0] == n);
                assert(e.contains(n));
            } else {
                assert(rest_pairs[i - 1] == pairs[i]);
                assert(rest.contains(n));
                let j = choose|j: int| 0 <= j < rest.len() && rest[j] == n;
                if head_matches {
                    assert(e[j + 1] == n);
                } else {
                    assert(e[j] == n);
                }
                assert(e.contains(n));
            }
        }
    }
}

/// Resolves the enabled-mod set from the world configuration text: the
/// names enabled by its top-level section. Succeeds exactly when the
/// document is well-formed; a malformed document is a configuration
/// error, fatal for the run.
pub fn get_mod_list(text: &str) -> (r: Result<Vec<String>, StoreError>)
    ensures
        r is Ok <==> ini_parses(text@),
        r matches Ok(list) ==> string_views(list@) == spec_enabled_mods(ini_general_of(text@)),
        r matches Err(e) ==> e is ConfigError,
{
    match parse_general_section(text) {
        Ok(pairs) => Ok(enabled_mods_of(&pairs)),
        Err(m) => Err(StoreError::ConfigError(m)),
    }
}

} // verus!
