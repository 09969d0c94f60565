use renrs::copywriting::{CallbackError, CopywritingStruct, StyleValue};
use renrs::error::ErrorCode;
use renrs::files::FileTable;
use renrs::value::{ConvertError, JsonNumber, JsonValue, LuaError, LuaValue};

fn s(text: &str) -> LuaValue {
    LuaValue::Str(text.as_bytes().to_vec())
}

fn props(pairs: &[(&str, &str)]) -> Vec<(String, String)> {
    pairs.iter().map(|(k, v)| (k.to_string(), v.to_string())).collect()
}

#[test]
fn starts_empty() {
    let c = CopywritingStruct::new();
    assert!(c.define.as_slice().is_empty());
    assert!(c.resource.as_slice().is_empty());
    assert!(c.translate.as_slice().is_empty());
    assert!(c.style.as_slice().is_empty());
    assert_eq!(c.copywriting, JsonValue::Null);
}

#[test]
fn set_define_stores_the_json_form() {
    let mut c = CopywritingStruct::new();
    assert_eq!(c.set_define("score".to_string(), &LuaValue::Integer(3)), Ok(()));
    assert_eq!(c.define.get("score"), Some(&JsonValue::Number(JsonNumber::PosInt(3))));
    assert_eq!(c.set_define("score".to_string(), &s("nil")), Ok(()));
    assert_eq!(c.define.get("score"), Some(&JsonValue::Null));
}

#[test]
fn set_define_refuses_and_keeps_the_defines() {
    let mut c = CopywritingStruct::new();
    c.set_define("a".to_string(), &LuaValue::Boolean(true)).unwrap();
    let r = c.set_define("f".to_string(), &LuaValue::Other);
    assert_eq!(
        r,
        Err(ConvertError { kind: LuaError::Unsupported, key: "f".to_string(), detail: String::new() })
    );
    assert_eq!(c.define.as_slice().len(), 1);
    assert_eq!(c.define.get("f"), None);
}

#[test]
fn get_define_reads_back_what_was_set() {
    let mut c = CopywritingStruct::new();
    let v = LuaValue::Table(vec![(s("w"), LuaValue::Integer(800)), (s("title"), s("游戏"))]);
    c.set_define("window".to_string(), &v).unwrap();
    assert_eq!(c.get_define("window"), Ok(v));
    assert_eq!(c.get_define("missing"), Err(CallbackError::MissingDefine("missing".to_string())));
}

#[test]
fn set_translate_merges_per_language() {
    let mut c = CopywritingStruct::new();
    c.set_translate("en".to_string(), &props(&[("hello", "Hello"), ("bye", "Bye")]));
    c.set_translate("en".to_string(), &props(&[("bye", "Goodbye"), ("ok", "OK")]));
    c.set_translate("zh".to_string(), &props(&[("hello", "你好")]));
    let en = c.translate.get("en").unwrap();
    assert_eq!(en.get("hello"), Some(&"Hello".to_string()));
    assert_eq!(en.get("bye"), Some(&"Goodbye".to_string()));
    assert_eq!(en.get("ok"), Some(&"OK".to_string()));
    assert_eq!(en.as_slice().len(), 3);
    assert_eq!(c.translate.get("zh").unwrap().get("hello"), Some(&"你好".to_string()));
}

#[test]
fn set_translate_with_no_pairs_makes_an_empty_language() {
    let mut c = CopywritingStruct::new();
    c.set_translate("fr".to_string(), &[]);
    assert!(c.translate.get("fr").unwrap().as_slice().is_empty());
}

#[test]
fn set_style_text_table_and_other() {
    let mut c = CopywritingStruct::new();
    assert_eq!(c.set_style("title".to_string(), &StyleValue::Text("color:red;".to_string())), Ok(()));
    assert_eq!(c.style.get("title"), Some(&"color:red;".to_string()));
    let t = StyleValue::Table(props(&[("fontSize", "20px"), ("textAlign", "center")]));
    assert_eq!(c.set_style("title".to_string(), &t), Ok(()));
    assert_eq!(c.style.get("title"), Some(&"font-size:20px;text-align:center;".to_string()));
    assert_eq!(
        c.set_style("bad".to_string(), &StyleValue::Other),
        Err(CallbackError::InvalidStyle("bad".to_string()))
    );
    assert_eq!(c.style.get("bad"), None);
}

#[test]
fn markers() {
    assert_eq!(CopywritingStruct::get_translate("hello"), "<g-translate>hello</g-translate>");
    assert_eq!(CopywritingStruct::get_style("title"), "<g-style>title</g-style>");
}

#[test]
fn span_wraps_text_in_styles() {
    assert_eq!(
        CopywritingStruct::span("hi", &props(&[("fontWeight", "bold")])),
        "<span style=\"font-weight:bold;\">hi</span>"
    );
    assert_eq!(CopywritingStruct::span("", &[]), "<span style=\"\"></span>");
}

#[test]
fn resource_from_a_package_file() {
    let mut files = FileTable::new();
    files.insert("cat.png".to_string(), vec![0x89, 0x50, 0x4e, 0x47]);
    let mut c = CopywritingStruct::new();
    let m = c.get_resource("cat.png".to_string(), "image/png", &files).unwrap();
    assert_eq!(m, "<g-image>cat.png</g-image>");
    assert_eq!(c.resource.get("cat.png"), Some(&"data:image/png;base64,iVBORw==".to_string()));
}

#[test]
fn resource_missing_from_the_package() {
    let files = FileTable::new();
    let mut c = CopywritingStruct::new();
    assert_eq!(
        c.get_resource("dog.png".to_string(), "image/png", &files),
        Err(CallbackError::MissingResource("dog.png".to_string()))
    );
    assert!(c.resource.as_slice().is_empty());
}

#[test]
fn base64_resources() {
    let mut c = CopywritingStruct::new();
    assert_eq!(c.add_base64_resource("id1".to_string(), "data:x".to_string()), "<g-image>id1</g-image>");
    assert_eq!(c.resource.get("id1"), Some(&"data:x".to_string()));
    let m = c.get_base64_resource("data:y".to_string()).unwrap();
    assert!(m.starts_with("<g-image>") && m.ends_with("</g-image>"));
    let id = &m["<g-image>".len()..m.len() - "</g-image>".len()];
    assert_eq!(id.len(), 36);
    assert_eq!(c.resource.get(id), Some(&"data:y".to_string()));
    assert_eq!(c.resource.as_slice().len(), 2);
}

#[test]
fn save_directory_is_read_from_the_defines() {
    let mut c = CopywritingStruct::new();
    let e = c.save_directory().unwrap_err();
    assert_eq!(e.code, ErrorCode::CannotFindSaveDirectoryDefine);
    assert_eq!(e.msg, "Cannot find \"config.save_directory\" define! Please check your lua file.");
    c.set_define("config.save_directory".to_string(), &LuaValue::Integer(1)).unwrap();
    let e = c.save_directory().unwrap_err();
    assert_eq!(e.code.code(), -7);
    assert_eq!(
        e.msg,
        "Cannot parse \"config.save_directory\" define key to string, Please check your lua file."
    );
    c.set_define("config.save_directory".to_string(), &s("MyGame")).unwrap();
    assert_eq!(c.save_directory(), Ok("MyGame".to_string()));
}

#[test]
fn callback_messages() {
    assert_eq!(
        CallbackError::InvalidStyle("k".to_string()).message(),
        "Cannot convert Define a valid value! key: k"
    );
    assert_eq!(CallbackError::MissingDefine("k".to_string()).message(), "Cannot find define value by k");
    assert_eq!(CallbackError::MissingResource("k".to_string()).message(), "Cannot find resource by key: k");
}

#[test]
fn resources_are_standard_base64() {
    let mut files = FileTable::new();
    for (name, bytes) in [("a", &b""[..]), ("b", &b"M"[..]), ("c", &b"Ma"[..]), ("d", &b"Man"[..]), ("e", &[0xfb, 0xff][..])] {
        files.insert(name.to_string(), bytes.to_vec());
    }
    let mut c = CopywritingStruct::new();
    for (name, text) in [("a", ""), ("b", "TQ=="), ("c", "TWE="), ("d", "TWFu"), ("e", "+/8=")] {
        c.get_resource(name.to_string(), "x/y", &files).unwrap();
        assert_eq!(c.resource.get(name), Some(&format!("data:x/y;base64,{}", text)));
    }
}
