//! What a game script builds through the engine's globals: defines, resources, translations and
//! styles, and the text that the globals hand back to the script.
use vstd::prelude::*;

use crate::codec::{base64_encode, base64_encoded, encoded_len};
use crate::error::{joined, ErrorCode, RTError};
use crate::files::FileTable;
use crate::rng::{draws, gen_random_uuid, part_bound, seed_state, uuid_text};
use crate::style::{style_text, style_to_string};
use crate::table::TextMap;
use crate::value::{
    json_to_lua_value, lemma_lua_json_round_trip, lua_of, lua_to_json, lua_value_to_json,
    nil_free, ConvertError, Json, JsonValue, LuaValue,
};

verus! {

/// Everything a game script defines: the result of running it.
pub struct CopywritingStruct {
    /// Global definitions, by key.
    pub define: TextMap<JsonValue>,
    /// Binary resources as data URLs, by key.
    pub resource: TextMap<String>,
    /// Translations: for each language, text by key.
    pub translate: TextMap<TextMap<String>>,
    /// Style sheets (CSS text), by key.
    pub style: TextMap<String>,
    /// The copywriting code itself (null until a script sets it).
    pub copywriting: JsonValue,
}

/// A style value handed to `SetStyle`: text, a table of properties (names and values as text,
/// in order), or anything else.
#[derive(Debug, PartialEq)]
pub enum StyleValue {
    Text(String),
    Table(Vec<(String, String)>),
    Other,
}

/// Why a global refuses its call.
#[derive(Debug, PartialEq)]
pub enum CallbackError {
    /// A style value is neither text nor a table; the key it was for.
    InvalidStyle(String),
    /// No define under this key.
    MissingDefine(String),
    /// No package file under this key.
    MissingResource(String),
}

/// The message of a refused call.
pub open spec fn callback_message(e: CallbackError) -> Seq<char> {
    match e {
        CallbackError::InvalidStyle(k) => "Cannot convert Define a valid value! key: "@ + k@,
        CallbackError::MissingDefine(k) => "Cannot find define value by "@ + k@,
        CallbackError::MissingResource(k) => "Cannot find resource by key: "@ + k@,
    }
}

impl CallbackError {
    /// The message of this error (see `callback_message`).
    pub fn message(&self) -> (m: String)
        ensures
            m@ == callback_message(*self),
    {
        match self {
            CallbackError::InvalidStyle(k) => joined(
                "Cannot convert Define a valid value! key: ",
                k.as_str(),
            ),
            CallbackError::MissingDefine(k) => joined("Cannot find define value by ", k.as_str()),
            CallbackError::MissingResource(k) => joined(
                "Cannot find resource by key: ",
                k.as_str(),
            ),
        }
    }
}

/// The translations `base` with the pairs `pairs` stored one after another.
pub open spec fn merged(base: Map<Seq<char>, Seq<char>>, pairs: Seq<(String, String)>) -> Map<
    Seq<char>,
    Seq<char>,
>
    decreases pairs.len(),
{
    if pairs.len() == 0 {
        base
    } else {
        merged(base, pairs.drop_last()).insert(pairs.last().0@, pairs.last().1@)
    }
}

/// The marker text for the translation `key`.
pub open spec fn translate_marker(key: Seq<char>) -> Seq<char> {
    "<g-translate>"@ + key + "</g-translate>"@
}

/// The marker text for the style `key`.
pub open spec fn style_marker(key: Seq<char>) -> Seq<char> {
    "<g-style>"@ + key + "</g-style>"@
}

/// The marker text for the image resource `key`.
pub open spec fn image_marker(key: Seq<char>) -> Seq<char> {
    "<g-image>"@ + key + "</g-image>"@
}

/// A data URL: `data:<kind>;base64,<payload>`.
pub open spec fn data_url(kind: Seq<char>, payload: Seq<char>) -> Seq<char> {
    "data:"@ + kind + ";base64,"@ + payload
}

/// `text` in a span styled by `styles`.
pub open spec fn span_text(text: Seq<char>, styles: Seq<(String, String)>) -> Seq<char> {
    "<span style=\""@ + style_text(styles) + "\">"@ + text + "</span>"@
}

/// The define key that names the save directory.
pub open spec fn save_directory_key() -> Seq<char> {
    "config.save_directory"@
}

/// Where the save directory is looked up: missing, not text, or the text.
pub open spec fn save_directory_of(define: Map<Seq<char>, Json>) -> Result<Seq<char>, Seq<char>> {
    if !define.contains_key(save_directory_key()) {
        Err("Cannot find \"config.save_directory\" define! Please check your lua file."@)
    } else {
        match define[save_directory_key()] {
            Json::Str(s) => Ok(s),
            _ => Err(
                "Cannot parse \"config.save_directory\" define key to string, Please check your lua file."@,
            ),
        }
    }
}

fn joined3(a: &str, b: &str, c: &str) -> (s: String)
    ensures
        s@ == a@ + b@ + c@,
{
    let mut s = joined(a, b);
    s.append(c);
    s
}

impl CopywritingStruct {
    /// Whether only the defines differ between `self` and `other`.
    pub open spec fn same_but_define(self, other: Self) -> bool {
        &&& self.resource@ == other.resource@
        &&& self.translate@ == other.translate@
        &&& self.style@ == other.style@
        &&& self.copywriting@ == other.copywriting@
    }

    /// Whether only the resources differ between `self` and `other`.
    pub open spec fn same_but_resource(self, other: Self) -> bool {
        &&& self.define@ == other.define@
        &&& self.translate@ == other.translate@
        &&& self.style@ == other.style@
        &&& self.copywriting@ == other.copywriting@
    }

    /// Whether only the translations differ between `self` and `other`.
    pub open spec fn same_but_translate(self, other: Self) -> bool {
        &&& self.define@ == other.define@
        &&& self.resource@ == other.resource@
        &&& self.style@ == other.style@
        &&& self.copywriting@ == other.copywriting@
    }

    /// Whether only the styles differ between `self` and `other`.
    pub open spec fn same_but_style(self, other: Self) -> bool {
        &&& self.define@ == other.define@
        &&& self.resource@ == other.resource@
        &&& self.translate@ == other.translate@
        &&& self.copywriting@ == other.copywriting@
    }

    /// Nothing defined yet.
    pub fn new() -> (c: Self)
        ensures
            c.define@ == Map::<Seq<char>, Json>::empty(),
            c.resource@ == Map::<Seq<char>, Seq<char>>::empty(),
            c.translate@ == Map::<Seq<char>, Map<Seq<char>, Seq<char>>>::empty(),
            c.style@ == Map::<Seq<char>, Seq<char>>::empty(),
            c.copywriting@ == Json::Null,
    {
        CopywritingStruct {
            define: TextMap::new(),
            resource: TextMap::new(),
            translate: TextMap::new(),
            style: TextMap::new(),
            copywriting: JsonValue::Null,
        }
    }

    /// `SetDefine(key, value)`: stores the JSON form of `value` under `key` (see
    /// `lua_to_json`), or refuses a value that has none and changes nothing.
    pub fn set_define(&mut self, key: String, value: &LuaValue) -> (r: Result<(), ConvertError>)
        ensures
            final(self).same_but_define(*old(self)),
            match lua_to_json(key@, *value) {
                Ok(j) => r is Ok && final(self).define@ == old(self).define@.insert(key@, j),
                Err((e, k, d)) => r matches Err(x) && x.kind == e && x.key@ == k && x.detail@ == d
                    && final(self).define@ == old(self).define@,
            },
    {
        let j = lua_value_to_json(key.as_str(), value)?;
        self.define.insert(key, j);
        Ok(())
    }

    /// `SetTranslate(key, table)`: the pairs of `table` (in order) stored into the translations
    /// of language `key`, which starts empty if there were none.
    pub fn set_translate(&mut self, key: String, pairs: &[(String, String)])
        ensures
            final(self).same_but_translate(*old(self)),
            final(self).translate@ == old(self).translate@.insert(
                key@,
                merged(
                    if old(self).translate@.contains_key(key@) {
                        old(self).translate@[key@]
                    } else {
                        Map::empty()
                    },
                    pairs@,
                ),
            ),
    {
        let ghost base = if self.translate@.contains_key(key@) {
            self.translate@[key@]
        } else {
            Map::<Seq<char>, Seq<char>>::empty()
        };
        let mut inner = match self.translate.remove(key.as_str()) {
            Some(m) => m,
            None => TextMap::new(),
        };
        assert(inner@ == base);
        let mut i: usize = 0;
        while i < pairs.len()
            invariant
                i <= pairs@.len(),
                inner@ == merged(base, pairs@.take(i as int)),
            decreases pairs@.len() - i,
        {
            inner.insert(pairs[i].0.clone(), pairs[i].1.clone());
            proof {
                let t = pairs@.take(i + 1);
                assert(t.drop_last() =~= pairs@.take(i as int));
                assert(t.last() == pairs@[i as int]);
            }
            i = i + 1;
        }
        assert(pairs@.take(i as int) =~= pairs@);
        self.translate.insert(key, inner);
        assert(self.translate@ =~= old(self).translate@.insert(key@, merged(base, pairs@)));
    }

    /// `SetStyle(key, value)`: text is stored as it is, a table as CSS text (see
    /// `style_to_string`); anything else is refused and changes nothing.
    pub fn set_style(&mut self, key: String, value: &StyleValue) -> (r: Result<(), CallbackError>)
        ensures
            final(self).same_but_style(*old(self)),
            match value {
                StyleValue::Text(s) => r is Ok && final(self).style@ == old(self).style@.insert(
                    key@,
                    s@,
                ),
                StyleValue::Table(t) => r is Ok && final(self).style@ == old(self).style@.insert(
                    key@,
                    style_text(t@),
                ),
                StyleValue::Other => r matches Err(CallbackError::InvalidStyle(k)) && k@ == key@
                    && final(self).style@ == old(self).style@,
            },
    {
        match value {
            StyleValue::Text(s) => {
                self.style.insert(key, s.clone());
                Ok(())
            },
            StyleValue::Table(t) => {
                let css = style_to_string(t.as_slice());
                self.style.insert(key, css);
                Ok(())
            },
            StyleValue::Other => Err(CallbackError::InvalidStyle(key)),
        }
    }

    /// `GetDefine(key)`: the Lua value made from the define under `key` (see `lua_of`).
    pub fn get_define(&self, key: &str) -> (r: Result<LuaValue, CallbackError>)
        ensures
            if self.define@.contains_key(key@) {
                r matches Ok(v) && v@ == lua_of(self.define@[key@])
            } else {
                r matches Err(CallbackError::MissingDefine(k)) && k@ == key@
            },
    {
        match self.define.get(key) {
            Some(j) => Ok(json_to_lua_value(j)),
            None => Err(CallbackError::MissingDefine(String::from_str(key))),
        }
    }

    /// `GetTranslate(key)`: the marker `<g-translate>key</g-translate>`.
    pub fn get_translate(key: &str) -> (r: String)
        ensures
            r@ == translate_marker(key@),
    {
        joined3("<g-translate>", key, "</g-translate>")
    }

    /// `GetStyle(key)`: the marker `<g-style>key</g-style>`.
    pub fn get_style(key: &str) -> (r: String)
        ensures
            r@ == style_marker(key@),
    {
        joined3("<g-style>", key, "</g-style>")
    }

    /// `Span(text, styles)`: `text` in a span whose style is the CSS text of `styles`.
    pub fn span(text: &str, styles: &[(String, String)]) -> (r: String)
        ensures
            r@ == span_text(text@, styles@),
    {
        let css = style_to_string(styles);
        let head = joined3("<span style=\"", css.as_str(), "\">");
        joined3(head.as_str(), text, "</span>")
    }

    /// `Resource(key, kind)`: stores the package file `key` as a data URL of type `kind` under
    /// `key` and gives its image marker; refuses a key that names no file, changing nothing.
    pub fn get_resource(&mut self, key: String, img_type: &str, files: &FileTable) -> (r: Result<
        String,
        CallbackError,
    >)
        requires
            files@.contains_key(key@) ==> encoded_len(files@[key@].len()) <= usize::MAX,
        ensures
            final(self).same_but_resource(*old(self)),
            if files@.contains_key(key@) {
                r matches Ok(m) && m@ == image_marker(key@) && final(self).resource@ == old(self).resource@.insert(key@, data_url(img_type@, base64_encoded(files@[key@])))
            } else {
                r matches Err(CallbackError::MissingResource(k)) && k@ == key@ && final(self).resource@ == old(self).resource@
            },
    {
        let bytes = match files.get(key.as_str()) {
            Some(b) => b,
            None => {
                return Err(CallbackError::MissingResource(key));
            },
        };
        let payload = base64_encode(bytes.as_slice());
        let url = joined3("data:", img_type, ";base64,");
        let url = joined(url.as_str(), payload.as_str());
        let marker = joined3("<g-image>", key.as_str(), "</g-image>");
        self.resource.insert(key, url);
        Ok(marker)
    }

    /// Stores `resource` under `id` and gives the image marker of `id`.
    pub fn add_base64_resource(&mut self, id: String, resource: String) -> (r: String)
        ensures
            final(self).same_but_resource(*old(self)),
            final(self).resource@ == old(self).resource@.insert(id@, resource@),
            r@ == image_marker(id@),
    {
        let marker = joined3("<g-image>", id.as_str(), "</g-image>");
        self.resource.insert(id, resource);
        marker
    }

    /// `Base64Resource(resource)`: stores `resource` under a fresh random identifier and gives
    /// that identifier's image marker; `None`, changing nothing, where the clock stands before
    /// 1970.
    pub fn get_base64_resource(&mut self, resource: String) -> (r: Option<String>)
        ensures
            final(self).same_but_resource(*old(self)),
            match r {
                Some(m) => exists|nanos: u128|
                    {
                        let id = uuid_text(draws(#[trigger] seed_state(nanos), part_bound(), 8));
                        &&& final(self).resource@ == old(self).resource@.insert(id, resource@)
                        &&& m@ == image_marker(id)
                    },
                None => final(self).resource@ == old(self).resource@,
            },
    {
        let id = match gen_random_uuid() {
            Some(id) => id,
            None => {
                return None;
            },
        };
        let ghost idv = id@;
        let m = self.add_base64_resource(id, resource);
        proof {
            let nanos = choose|nanos: u128| idv == uuid_text(draws(seed_state(nanos), part_bound(), 8));
            assert(final(self).resource@ == old(self).resource@.insert(uuid_text(draws(seed_state(nanos), part_bound(), 8)), resource@));
        }
        Some(m)
    }

    /// The save directory that the script defined under `config.save_directory`; refused (code
    /// `CannotFindSaveDirectoryDefine`) where it is missing or not text.
    pub fn save_directory(&self) -> (r: Result<String, RTError>)
        ensures
            match save_directory_of(self.define@) {
                Ok(s) => r matches Ok(d) && d@ == s,
                Err(m) => r matches Err(e) && e.code == ErrorCode::CannotFindSaveDirectoryDefine
                    && e.msg@ == m,
            },
    {
        match self.define.get("config.save_directory") {
            None => Err(
                RTError {
                    msg: String::from_str(
                        "Cannot find \"config.save_directory\" define! Please check your lua file.",
                    ),
                    code: ErrorCode::CannotFindSaveDirectoryDefine,
                },
            ),
            Some(v) => match v {
                JsonValue::Str(s) => Ok(s.clone()),
                _ => Err(
                    RTError {
                        msg: String::from_str(
                            "Cannot parse \"config.save_directory\" define key to string, Please check your lua file.",
                        ),
                        code: ErrorCode::CannotFindSaveDirectoryDefine,
                    },
                ),
            },
        }
    }
}

/// After storing translation pairs, a name reads the value of its last pair.
pub proof fn lemma_translation_last_wins(
    base: Map<Seq<char>, Seq<char>>,
    pairs: Seq<(String, String)>,
    i: int,
)
    requires
        0 <= i < pairs.len(),
        forall|j: int| i < j < pairs.len() ==> (#[trigger] pairs[j]).0@ != pairs[i].0@,
    ensures
        merged(base, pairs).contains_key(pairs[i].0@),
        merged(base, pairs)[pairs[i].0@] == pairs[i].1@,
    decreases pairs.len(),
{
    let rest = pairs.drop_last();
    if i < pairs.len() - 1 {
        assert forall|j: int| i < j < rest.len() implies (#[trigger] rest[j]).0@ != rest[i].0@ by {
            assert(rest[j] == pairs[j]);
        }
        lemma_translation_last_wins(base, rest, i);
        assert(pairs.last() == pairs[pairs.len() - 1]);
    }
}

/// Storing translation pairs leaves every name that no pair carries as it was.
pub proof fn lemma_translation_untouched(
    base: Map<Seq<char>, Seq<char>>,
    pairs: Seq<(String, String)>,
    k: Seq<char>,
)
    requires
        forall|j: int| 0 <= j < pairs.len() ==> (#[trigger] pairs[j]).0@ != k,
    ensures
        merged(base, pairs).contains_key(k) == base.contains_key(k),
        base.contains_key(k) ==> merged(base, pairs)[k] == base[k],
    decreases pairs.len(),
{
    if pairs.len() > 0 {
        let rest = pairs.drop_last();
        assert forall|j: int| 0 <= j < rest.len() implies (#[trigger] rest[j]).0@ != k by {
            assert(rest[j] == pairs[j]);
        }
        lemma_translation_untouched(base, rest, k);
        assert(pairs.last() == pairs[pairs.len() - 1]);
    }
}

/// What `GetDefine` reads back of what `SetDefine` stored: the same Lua value, for any value
/// whose conversion succeeded and that holds no string `nil`.
pub proof fn lemma_define_read_back(
    before: CopywritingStruct,
    after: CopywritingStruct,
    key: String,
    value: LuaValue,
)
    requires
        lua_to_json(key@, value) is Ok,
        nil_free(value),
        after.define@ == before.define@.insert(key@, lua_to_json(key@, value)->Ok_0),
    ensures
        after.define@.contains_key(key@),
        lua_of(after.define@[key@]) == value@,
{
    lemma_lua_json_round_trip(key@, value);
}

/// A marker holds its key exactly as given, between the marker's opening and closing tags.
pub proof fn lemma_markers_hold_key(key: Seq<char>)
    ensures
        translate_marker(key).subrange(13, 13 + (key.len() as int)) == key,
        translate_marker(key).len() == 13 + key.len() + 14,
        style_marker(key).subrange(9, 9 + (key.len() as int)) == key,
        style_marker(key).len() == 9 + key.len() + 10,
        image_marker(key).subrange(9, 9 + (key.len() as int)) == key,
        image_marker(key).len() == 9 + key.len() + 10,
{
    reveal_strlit("<g-translate>");
    reveal_strlit("</g-translate>");
    reveal_strlit("<g-style>");
    reveal_strlit("</g-style>");
    reveal_strlit("<g-image>");
    reveal_strlit("</g-image>");
    assert(translate_marker(key).subrange(13, 13 + (key.len() as int)) =~= key);
    assert(style_marker(key).subrange(9, 9 + (key.len() as int)) =~= key);
    assert(image_marker(key).subrange(9, 9 + (key.len() as int)) =~= key);
}

/// Different keys get different markers: a marker names exactly one translation, style or
/// image.
pub proof fn lemma_markers_distinct(a: Seq<char>, b: Seq<char>)
    requires
        a != b,
    ensures
        translate_marker(a) != translate_marker(b),
        style_marker(a) != style_marker(b),
        image_marker(a) != image_marker(b),
{
    lemma_markers_hold_key(a);
    lemma_markers_hold_key(b);
}

/// A span holds its text exactly as given: after `<span style="`, the CSS text of the styles
/// and `">` comes the text, then `</span>`.
pub proof fn lemma_span_holds_text(text: Seq<char>, styles: Seq<(String, String)>)
    ensures
        ({
            let r = span_text(text, styles);
            let css = style_text(styles);
            &&& r.len() == 13 + css.len() + 2 + text.len() + 7
            &&& r.take(13) == "<span style=\""@
            &&& r.subrange(13, 13 + (css.len() as int)) == css
            &&& r.subrange(13 + (css.len() as int), 15 + (css.len() as int)) == "\">"@
            &&& r.subrange(15 + (css.len() as int), 15 + (css.len() as int) + (text.len() as int)) == text
            &&& r.skip(15 + (css.len() as int) + (text.len() as int)) == "</span>"@
        }),
{
    reveal_strlit("<span style=\"");
    reveal_strlit("\">");
    reveal_strlit("</span>");
    let r = span_text(text, styles);
    let css = style_text(styles);
    assert(r.take(13) =~= "<span style=\""@);
    assert(r.subrange(13, 13 + (css.len() as int)) =~= css);
    assert(r.subrange(13 + (css.len() as int), 15 + (css.len() as int)) =~= "\">"@);
    assert(r.subrange(15 + (css.len() as int), 15 + (css.len() as int) + (text.len() as int)) =~= text);
    assert(r.skip(15 + (css.len() as int) + (text.len() as int)) =~= "</span>"@);
}

} // verus!
