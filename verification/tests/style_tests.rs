use renrs::style::{camel_to_kebab, style_to_string, to_ascii_lowercase};

fn props(pairs: &[(&str, &str)]) -> Vec<(String, String)> {
    pairs.iter().map(|(k, v)| (k.to_string(), v.to_string())).collect()
}

#[test]
fn camel_case_becomes_kebab_case() {
    assert_eq!(camel_to_kebab("fontSize".to_string()), "font-size");
    assert_eq!(camel_to_kebab("backgroundColorTop".to_string()), "background-color-top");
    assert_eq!(camel_to_kebab("FontSize".to_string()), "font-size");
    assert_eq!(camel_to_kebab("".to_string()), "");
}

#[test]
fn lowercase_names_stay() {
    assert_eq!(camel_to_kebab("color".to_string()), "color");
    assert_eq!(camel_to_kebab("margin-top".to_string()), "margin-top");
    assert_eq!(camel_to_kebab("z-index2".to_string()), "z-index2");
}

#[test]
fn non_ascii_capitals_get_a_dash_and_stay_capital() {
    assert_eq!(camel_to_kebab("aÄb".to_string()), "a-Äb");
    assert_eq!(camel_to_kebab("XY".to_string()), "x-y");
}

#[test]
fn ascii_lowercase_of_one_character() {
    assert_eq!(to_ascii_lowercase('Q'), 'q');
    assert_eq!(to_ascii_lowercase('q'), 'q');
    assert_eq!(to_ascii_lowercase('Ä'), 'Ä');
    assert_eq!(to_ascii_lowercase('['), '[');
    assert_eq!(to_ascii_lowercase('@'), '@');
}

#[test]
fn style_table_becomes_css_text() {
    assert_eq!(
        style_to_string(&props(&[("fontSize", "12px"), ("color", "red")])),
        "font-size:12px;color:red;"
    );
    assert_eq!(style_to_string(&[]), "");
}

#[test]
fn converting_twice_changes_nothing_more() {
    for name in ["fontSizeXL", "BorderTopLeftRadius", "a-b-C", "zIndex"] {
        let once = camel_to_kebab(name.to_string());
        assert_eq!(camel_to_kebab(once.clone()), once, "{}", name);
    }
}
