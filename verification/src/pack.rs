//! Language packs: a layout, a dictionary and some metadata.
//!
//! The dictionary arrives as JSON text (`{ "STROKE": "text", ... }`), with an
//! optional user overlay whose entries win over the shipped ones. Loading
//! never fails silently: a malformed dictionary yields a [`PackError`].
use vstd::prelude::*;
use crate::assoc::fold_pairs;
use crate::dictionary::Dictionary;
use crate::layout::Layout;
use crate::text::{is_blank, owned, trimmed};

verus! {

#[verifier::external_type_specification]
#[verifier::external_body]
pub struct ExJsonError(serde_json::Error);

#[verifier::external_type_specification]
#[verifier::external_body]
pub struct ExIoError(std::io::Error);

/// The key/text pairs of a JSON object whose values are all strings, in the
/// order `serde_json` hands them over when deserializing into a
/// `BTreeMap<String, String>`; `None` when the text is no such object.
pub uninterp spec fn json_string_object(text: Seq<char>) -> Option<Seq<(Seq<char>, Seq<char>)>>;

/// The character sequences of a list of pairs.
pub open spec fn pair_views(v: Seq<(String, String)>) -> Seq<(Seq<char>, Seq<char>)> {
    v.map_values(|p: (String, String)| (p.0@, p.1@))
}

/// Parses `text` with `serde_json::from_str` into a `BTreeMap<String,
/// String>` and lists its pairs. The contract only names the outcome: the
/// pairs are `json_string_object(text)`, and an error comes exactly when that
/// is `None`. What JSON text is accepted is left to serde_json.
#[verifier::external_body]
fn parse_json_object(text: &str) -> (r: Result<Vec<(String, String)>, serde_json::Error>)
    ensures
        match r {
            Ok(v) => json_string_object(text@) == Some(pair_views(v@)),
            Err(_) => json_string_object(text@) is None,
        },
{
    serde_json::from_str::<std::collections::BTreeMap<String, String>>(text).map(|m| m.into_iter().collect())
}

/// The message of a `serde_json::Error` (its `Display` text). Nothing is
/// stated of the message.
#[verifier::external_body]
fn json_error_message(e: &serde_json::Error) -> String {
    e.to_string()
}

/// The map a parsed JSON object stands for: later pairs win.
pub open spec fn json_map(pairs: Seq<(Seq<char>, Seq<char>)>) -> Map<Seq<char>, Seq<char>>
    decreases pairs.len(),
{
    if pairs.len() == 0 {
        Map::empty()
    } else {
        json_map(pairs.drop_last()).insert(pairs.last().0, pairs.last().1)
    }
}

proof fn lemma_json_map(v: Seq<(String, String)>)
    ensures
        json_map(pair_views(v)) == fold_pairs(v),
    decreases v.len(),
{
    if v.len() > 0 {
        assert(pair_views(v).drop_last() =~= pair_views(v.drop_last()));
        lemma_json_map(v.drop_last());
    }
}

/// Everything needed to translate one language.
#[derive(Debug, Clone)]
pub struct Pack {
    pub code: String,
    pub name: String,
    pub lang: String,
    pub description: String,
    /// The stroke (e.g. `"*"`) that means "undo the last output"; empty for none.
    pub undo_stroke: String,
    pub layout: Layout,
    pub dict: Dictionary,
}

/// Why a pack failed to load.
#[derive(Debug)]
pub enum PackError {
    /// A pack file could not be read.
    Io { file: String, source: std::io::Error },
    /// `pack.toml` is malformed.
    Meta(String),
    /// `layout.toml` is malformed.
    Layout(String),
    /// `dict.json` or `user.json` is malformed.
    Dict(String),
}

/// The user overlay takes part: it is given and not blank.
pub open spec fn overlay_used(user_json: Option<&str>) -> bool {
    user_json matches Some(u) && trimmed(u@).len() > 0
}

/// The dictionary a pack gets from its JSON files, when both parse.
pub open spec fn pack_dictionary(dict_json: Seq<char>, user_json: Option<&str>) -> Option<
    Map<Seq<char>, Seq<char>>,
> {
    match json_string_object(dict_json) {
        None => None,
        Some(base) => if overlay_used(user_json) {
            match json_string_object(user_json->0@) {
                None => None,
                Some(over) => Some(json_map(base).union_prefer_right(json_map(over))),
            }
        } else {
            Some(json_map(base))
        },
    }
}

/// The undo stroke a pack gets when its metadata names none.
pub fn default_undo() -> (s: String)
    ensures
        s@ == seq!['*'],
{
    proof {
        reveal_strlit("*");
    }
    owned("*")
}

impl Pack {
    /// Assemble a pack from its metadata, its layout and the text of its
    /// dictionary files. `user_json` is an optional overlay merged on top of
    /// `dict_json`; a blank overlay is ignored.
    pub fn from_parts(
        code: String,
        name: String,
        lang: String,
        description: String,
        undo_stroke: String,
        layout: Layout,
        dict_json: &str,
        user_json: Option<&str>,
    ) -> (r: Result<Pack, PackError>)
        ensures
            match r {
                Ok(p) => pack_dictionary(dict_json@, user_json) == Some(p.dict@) && p.code == code && p.name == name
                    && p.lang == lang && p.description == description && p.undo_stroke == undo_stroke
                    && p.layout == layout,
                Err(e) => pack_dictionary(dict_json@, user_json) is None && e is Dict,
            },
    {
        let base = match parse_json_object(dict_json) {
            Ok(v) => v,
            Err(e) => {
                return Err(PackError::Dict(json_error_message(&e)));
            },
        };
        proof {
            lemma_json_map(base@);
        }
        let dict = Dictionary::from_map(base);
        let dict = match user_json {
            Some(u) => {
                if is_blank(u) {
                    dict
                } else {
                    let overlay = match parse_json_object(u) {
                        Ok(v) => v,
                        Err(e) => {
                            return Err(PackError::Dict(json_error_message(&e)));
                        },
                    };
                    proof {
                        lemma_json_map(overlay@);
                    }
                    dict.overlaid_with(overlay.as_slice())
                }
            },
            None => dict,
        };
        Ok(Pack { code, name, lang, description, undo_stroke, layout, dict })
    }
}

} // verus!
