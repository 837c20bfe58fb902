use lawl::value::binding_source;
use lawl::{Lawl, RenderError, Slot, Value};

/// The slot of the first element opened by `open` at or after `from`, closed
/// by the first `close` after it.
fn slot_after(t: &str, from: usize, open: &str, close: &str, code: &str) -> Slot {
    let open_start = from + t[from..].find(open).unwrap();
    let content_start = open_start + open.len();
    let content_end = content_start + t[content_start..].find(close).unwrap();
    Slot {
        open_start,
        content_start,
        content_end,
        close_end: content_end + close.len(),
        code: code.to_string(),
    }
}

fn lua_slot(t: &str, code: &str) -> Slot {
    let open = t.find('>').unwrap() + 1;
    slot_after(t, 0, &t[..open], "</lua>", code)
}

fn render_one(lawl: &Lawl, content: &str, code: &str) -> Result<String, RenderError> {
    let t = format!("<lua code=\"x\">{}</lua>", content);
    let s = lua_slot(&t, code);
    lawl.render(&t, &vec![s])
}

fn text(s: &str) -> Value {
    Value::Text(s.to_string())
}

#[test]
fn should_construct() {
    Lawl::default();
}

#[test]
fn should_not_mutate_no_lua_html() {
    let lawl = Lawl::default();

    let html = r#"
            <!doctype html>
            <html>
              <head>
                <title>This is the title of the webpage!</title>
              </head>
              <body>
                <p>This is an example paragraph. Anything in the <strong>body</strong> tag will appear on the page, just like this <strong>p</strong> tag and its contents.</p>
              </body>
            </html>
        "#
    .to_string();

    assert_eq!(html, lawl.render(&html, &vec![]).unwrap());
}

#[test]
fn should_generate_correct_result_from_basic_lua_expression() {
    let lawl = Lawl::default();

    let html = r#"<Lua code='data = "my little pony"'>replace me!</Lua>"#.to_string();
    let s = slot_after(&html, 0, r#"<Lua code='data = "my little pony"'>"#, "</Lua>", r#"data = "my little pony""#);

    assert_eq!("my little pony".to_string(), lawl.render(&html, &vec![s]).unwrap())
}

#[test]
fn replaces_only_the_element() {
    let lawl = Lawl::default();
    let t = "<p>a</p><lua code='data = \"X\"'>ignored</lua><p>b</p>";
    let s = slot_after(t, 0, "<lua code='data = \"X\"'>", "</lua>", "data = \"X\"");
    assert_eq!(lawl.render(t, &vec![s]).unwrap(), "<p>a</p>X<p>b</p>");
}

#[test]
fn empty_script_keeps_content() {
    let lawl = Lawl::default();
    assert_eq!(render_one(&lawl, "keep <b>me</b>", "").unwrap(), "keep <b>me</b>");
}

#[test]
fn show_clears_on_empty_false_or_absent() {
    let mut lawl = Lawl::default();
    lawl.insert("empty", text("")).unwrap();
    lawl.insert("no", Value::Bool(false)).unwrap();
    lawl.insert("yes", Value::Bool(true)).unwrap();
    lawl.insert("word", text("hi")).unwrap();
    assert_eq!(render_one(&lawl, "slot", "show(empty)").unwrap(), "");
    assert_eq!(render_one(&lawl, "slot", "show(no)").unwrap(), "");
    assert_eq!(render_one(&lawl, "slot", "show(absent)").unwrap(), "");
    assert_eq!(render_one(&lawl, "slot", "show(yes)").unwrap(), "slot");
    assert_eq!(render_one(&lawl, "slot", "show(word)").unwrap(), "slot");
}

#[test]
fn hide_is_the_inverse_of_show() {
    let mut lawl = Lawl::default();
    lawl.insert("empty", text("")).unwrap();
    lawl.insert("no", Value::Bool(false)).unwrap();
    lawl.insert("yes", Value::Bool(true)).unwrap();
    lawl.insert("word", text("hi")).unwrap();
    for name in ["empty", "no", "absent", "yes", "word"] {
        let shown = render_one(&lawl, "slot", &format!("show({})", name)).unwrap();
        let hidden = render_one(&lawl, "slot", &format!("hide({})", name)).unwrap();
        assert_ne!(shown, hidden);
        assert!(shown == "slot" || hidden == "slot");
        assert!(shown.is_empty() || hidden.is_empty());
    }
}

#[test]
fn maybe_picks_the_first_truthy() {
    let mut lawl = Lawl::default();
    lawl.insert("v", text("given")).unwrap();
    lawl.insert("f", Value::Bool(false)).unwrap();
    lawl.insert("z", Value::Nil).unwrap();
    assert_eq!(render_one(&lawl, "", "data = maybe(v, 'other')").unwrap(), "given");
    assert_eq!(render_one(&lawl, "", "data = maybe(f, 'other')").unwrap(), "other");
    assert_eq!(render_one(&lawl, "", "data = maybe(z, 'other')").unwrap(), "other");
    assert_eq!(render_one(&lawl, "", "data = maybe(7, 8)").unwrap(), "7");
}

#[test]
fn format_applies_arguments() {
    let lawl = Lawl::default();
    assert_eq!(render_one(&lawl, "%s is %d", "format('age', 5)").unwrap(), "age is 5");
}

#[test]
fn each_repeats_the_content() {
    let mut lawl = Lawl::default();
    let person = |n: &str| Value::Table(vec![("name".to_string(), text(n))]);
    lawl.insert("people", Value::List(vec![person("Ann"), person("Bo"), person("Cy")])).unwrap();
    assert_eq!(
        render_one(&lawl, "Hi $name! ", "each(people)").unwrap(),
        "Hi Ann! Hi Bo! Hi Cy! "
    );
}

#[test]
fn each_keeps_a_token_with_no_field() {
    let mut lawl = Lawl::default();
    lawl.insert("rows", Value::List(vec![Value::Table(vec![])])).unwrap();
    assert_eq!(render_one(&lawl, "[$missing]", "each(rows)").unwrap(), "[$missing]");
}

#[test]
fn later_insert_wins_and_remove_unbinds() {
    let mut lawl = Lawl::default();
    lawl.insert("x", Value::Int(1)).unwrap();
    lawl.insert("x", Value::Int(2)).unwrap();
    assert_eq!(render_one(&lawl, "", "data = tostring(x)").unwrap(), "2");
    lawl.remove("x").unwrap();
    assert_eq!(render_one(&lawl, "", "data = tostring(x)").unwrap(), "nil");
    assert_eq!(lawl.remove("never"), Ok(()));
}

#[test]
fn renders_do_not_share_script_state() {
    let lawl = Lawl::default();
    assert_eq!(render_one(&lawl, "first", "leak = data").unwrap(), "first");
    assert_eq!(render_one(&lawl, "second", "data = tostring(leak)").unwrap(), "nil");
}

#[test]
fn runtime_error_names_the_code() {
    let lawl = Lawl::default();
    let code = "error('boom')";
    match render_one(&lawl, "slot", code) {
        Err(RenderError::Script { code: c, message }) => {
            assert_eq!(c, code);
            assert!(message.contains("boom"));
        }
        _ => panic!("expected a script error"),
    }
}

#[test]
fn syntax_error_is_a_script_error() {
    let lawl = Lawl::default();
    assert!(matches!(
        render_one(&lawl, "slot", "data = = 1"),
        Err(RenderError::Script { .. })
    ));
}

#[test]
fn bad_layout_is_refused() {
    let lawl = Lawl::default();
    let t = "<lua>x</lua>";
    let s = Slot { open_start: 0, content_start: 5, content_end: 6, close_end: 99, code: String::new() };
    assert!(matches!(lawl.render(t, &vec![s]), Err(RenderError::Layout)));
}

#[test]
fn invalid_utf8_result_is_an_encoding_error() {
    let lawl = Lawl::default();
    assert!(matches!(
        render_one(&lawl, "slot", "data = '\\255'"),
        Err(RenderError::Encoding)
    ));
}

#[test]
fn inner_slot_resolves_before_outer() {
    let lawl = Lawl::default();
    let t = "A<lua code='o'>[<lua code='i'>in</lua>]</lua>B";
    let outer = Slot { open_start: 1, content_start: 15, content_end: 39, close_end: 45, code: "data = data .. '!'".to_string() };
    let inner = slot_after(t, 16, "<lua code='i'>", "</lua>", "data = string.upper(data)");
    assert_eq!(&t[outer.content_end..outer.close_end], "</lua>");
    assert_eq!(lawl.render(t, &vec![outer, inner]).unwrap(), "A[IN]!B");
}

#[test]
fn siblings_run_in_document_order() {
    let lawl = Lawl::default();
    let t = "<lua>a</lua>-<lua>b</lua>";
    let first = slot_after(t, 0, "<lua>", "</lua>", "n = 1; data = tostring(n)");
    let second = slot_after(t, 12, "<lua>", "</lua>", "n = n + 1; data = tostring(n)");
    assert_eq!(lawl.render(t, &vec![first, second]).unwrap(), "1-2");
}

#[test]
fn values_reach_scripts_unchanged() {
    let mut lawl = Lawl::default();
    lawl.insert("small", Value::Int(i64::MIN)).unwrap();
    lawl.insert("big", Value::Int(i64::MAX)).unwrap();
    lawl.insert("quote", text("a\"b\\c\nd")).unwrap();
    lawl.insert("odd key!", Value::Int(3)).unwrap();
    assert_eq!(render_one(&lawl, "", "data = tostring(small)").unwrap(), "-9223372036854775808");
    assert_eq!(render_one(&lawl, "", "data = math.type(small)").unwrap(), "integer");
    assert_eq!(render_one(&lawl, "", "data = tostring(big)").unwrap(), "9223372036854775807");
    assert_eq!(render_one(&lawl, "", "data = quote").unwrap(), "a\"b\\c\nd");
    assert_eq!(render_one(&lawl, "", "data = tostring(_G['odd key!'])").unwrap(), "3");
}

#[test]
fn binding_source_spells_a_lua_statement() {
    assert_eq!(binding_source("k", &Value::Int(-5)), b"_G[\"\\107\"]=(-1-4)".to_vec());
    assert_eq!(binding_source("a", &Value::Nil), b"_G[\"\\097\"]=nil".to_vec());
    assert_eq!(
        binding_source("a", &Value::List(vec![Value::Bool(true), Value::Int(10)])),
        b"_G[\"\\097\"]={true,10,}".to_vec()
    );
}


#[test]
fn close_order_puts_inner_slots_first() {
    let t = "A<lua code='o'>[<lua code='i'>in</lua>]</lua>B<lua>c</lua>";
    let outer = Slot { open_start: 1, content_start: 15, content_end: 39, close_end: 45, code: String::new() };
    let inner = slot_after(t, 16, "<lua code='i'>", "</lua>", "");
    let last = slot_after(t, 46, "<lua>", "</lua>", "");
    assert_eq!(lawl::splice::close_order(&vec![outer, inner, last], t.len()), vec![1, 0, 2]);
}

#[test]
fn script_outcome_keeps_value_or_names_code() {
    let code = "boom()".to_string();
    assert_eq!(lawl::script_outcome(&code, Ok::<u8, String>(3)).unwrap(), 3);
    match lawl::script_outcome(&code, Err::<u8, String>("bad".to_string())) {
        Err(RenderError::Script { code: c, message }) => {
            assert_eq!(c, "boom()");
            assert_eq!(message, "bad");
        }
        _ => panic!("expected a script error"),
    }
}

#[test]
fn text_result_refuses_invalid_utf8() {
    assert_eq!(lawl::text_result(b"h\xc3\xa9".to_vec()).unwrap(), "h\u{e9}");
    assert!(matches!(lawl::text_result(vec![0xff]), Err(RenderError::Encoding)));
}

#[test]
fn run_slots_reports_inputs_and_results() {
    let lua = mlua::Lua::new();
    let t = "A<lua code='o'>[<lua code='i'>in</lua>]</lua>B";
    let outer = Slot { open_start: 1, content_start: 15, content_end: 39, close_end: 45, code: "data = data .. '!'".to_string() };
    let inner = slot_after(t, 16, "<lua code='i'>", "</lua>", "data = string.upper(data)");
    let runs = match lawl::run_slots(&lua, t.as_bytes(), &vec![outer, inner]) {
        Ok(runs) => runs,
        Err(e) => panic!("{:?}", e),
    };
    assert_eq!(runs.inputs, vec![b"[IN]".to_vec(), b"in".to_vec()]);
    assert_eq!(runs.results, vec![b"[IN]!".to_vec(), b"IN".to_vec()]);
    assert_eq!(runs.output, b"A[IN]!B".to_vec());
}

#[test]
fn run_slots_stops_at_first_failure() {
    let lua = mlua::Lua::new();
    let t = "<lua>a</lua><lua>b</lua><lua>c</lua>";
    let first = slot_after(t, 0, "<lua>", "</lua>", "error('first')");
    let second = slot_after(t, 12, "<lua>", "</lua>", "ran = true");
    let third = slot_after(t, 24, "<lua>", "</lua>", "error('third')");
    match lawl::run_slots(&lua, t.as_bytes(), &vec![first, second, third]) {
        Err(RenderError::Script { code, .. }) => assert_eq!(code, "error('first')"),
        _ => panic!("expected a script error"),
    }
    let ran: Option<bool> = lua.globals().get("ran").unwrap();
    assert_eq!(ran, None);
}

#[test]
fn slots_share_one_interpreter_per_render() {
    let lawl = Lawl::default();
    let t = "<lua code='n = 7'>a</lua>-<lua code='data = tostring(n)'>b</lua>";
    let first = slot_after(t, 0, "<lua code='n = 7'>", "</lua>", "n = 7");
    let second = slot_after(t, 25, "<lua code='data = tostring(n)'>", "</lua>", "data = tostring(n)");
    assert_eq!(lawl.render(t, &vec![first, second]).unwrap(), "a-7");
}

#[test]
fn format_with_wrong_arguments_is_a_script_error() {
    let lawl = Lawl::default();
    match render_one(&lawl, "%d", "format('x')") {
        Err(RenderError::Script { code, .. }) => assert_eq!(code, "format('x')"),
        _ => panic!("expected a script error"),
    }
}
