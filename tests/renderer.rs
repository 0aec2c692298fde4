use funcy::{assemble, Handler, PlaceholderExpr, PlaceholderFunction, RenderError, TemplateRenderer};

struct Echo();
impl PlaceholderFunction for Echo {
    fn placeholder_fn_handler<'a>(&mut self, _name: &'a str, arg: &'a str) -> Result<String, String> {
        Ok(arg.to_string())
    }
}

struct Counter(usize);
impl PlaceholderFunction for Counter {
    fn placeholder_fn_handler<'a>(&mut self, _name: &'a str, _arg: &'a str) -> Result<String, String> {
        self.0 += 1;
        Ok(self.0.to_string())
    }
}

struct RetErr();
impl PlaceholderFunction for RetErr {
    fn placeholder_fn_handler<'a>(&mut self, _name: &'a str, _arg: &'a str) -> Result<String, String> {
        Err("test error".to_string())
    }
}

struct NameOf();
impl PlaceholderFunction for NameOf {
    fn placeholder_fn_handler<'a>(&mut self, name: &'a str, arg: &'a str) -> Result<String, String> {
        Ok(format!("[{}|{}]", name, arg))
    }
}

#[test]
fn echo_function() {
    let mut tr = TemplateRenderer::with_template("<!$ echo test>");
    tr.set_placeholder_fn("echo", Handler(Box::new(Echo())));
    assert_eq!(tr.render().unwrap(), "test");

    tr.set_template("<!$ echo test with spaces> and extra text");
    assert_eq!(tr.render().unwrap(), "test with spaces and extra text");
}

#[test]
fn counter_function() {
    let mut tr = TemplateRenderer::with_template("<!$ counter> <!$ counter>");
    tr.set_placeholder_fn("counter", Handler(Box::new(Counter(0))));
    assert_eq!(tr.render().unwrap(), "1 2");
}

#[test]
fn nonexistent_function() {
    let mut tr = TemplateRenderer::with_template("<!$ nonexistent>");
    assert!(match tr.render().unwrap_err() {
        RenderError::UnknownFunction(_) => true,
        _ => false
    });
}

#[test]
fn function_returning_err() {
    let mut tr = TemplateRenderer::with_template("<!$ err>");
    println!("{:?}", tr.placeholders());
    tr.set_placeholder_fn("err", Handler(Box::new(RetErr())));
    assert!(match tr.render().unwrap_err() {
        RenderError::FunctionError("err", err_str) => err_str == "test error",
        _ => false
    });
}

#[test]
fn echo_hello_world() {
    let mut tr = TemplateRenderer::with_template("<!$ echo Hello>, World!");
    tr.set_placeholder_fn("echo", Handler(Box::new(Echo())));
    assert_eq!(tr.render().unwrap(), "Hello, World!");
}

#[test]
fn counter_counts_across_renders() {
    let mut tr = TemplateRenderer::with_template("<!$ counter> <!$ counter> <!$ counter>");
    tr.set_placeholder_fn("counter", Handler(Box::new(Counter(0))));
    assert_eq!(tr.render().unwrap(), "1 2 3");
    assert_eq!(tr.render().unwrap(), "4 5 6");
}

#[test]
fn unknown_function_carries_tag() {
    let mut tr = TemplateRenderer::new();
    tr.set_template("<!$ nonexistent>");
    assert_eq!(
        tr.render(),
        Err(RenderError::UnknownFunction(PlaceholderExpr { start_idx: 0, end_idx: 16, content: "nonexistent" }))
    );
}

#[test]
fn first_unknown_function_wins() {
    let mut tr = TemplateRenderer::with_template("ab <!$ echo x> <!$ nope 1> <!$ other>");
    tr.set_placeholder_fn("echo", Handler(Box::new(Echo())));
    assert_eq!(
        tr.render(),
        Err(RenderError::UnknownFunction(PlaceholderExpr { start_idx: 15, end_idx: 26, content: "nope 1" }))
    );
}

#[test]
fn handler_error_carries_name_and_message() {
    let mut tr = TemplateRenderer::with_template("<!$ err>");
    tr.set_placeholder_fn("err", Handler(Box::new(RetErr())));
    assert_eq!(tr.render(), Err(RenderError::FunctionError("err", "test error".to_string())));
}

#[test]
fn no_tags_pass_through() {
    let mut tr = TemplateRenderer::with_template("plain <!$ text without a close");
    assert_eq!(tr.render().unwrap(), "plain <!$ text without a close");
    let mut empty = TemplateRenderer::new();
    assert_eq!(empty.render().unwrap(), "");
}

#[test]
fn unterminated_tag_renders_as_text() {
    let mut tr = TemplateRenderer::with_template("x <!$ foo");
    assert_eq!(tr.render().unwrap(), "x <!$ foo");
}

#[test]
fn handler_sees_name_and_argument() {
    let mut tr = TemplateRenderer::with_template("<!$ a> <!$ b one two>!");
    tr.set_placeholders(vec![("a", Handler(Box::new(NameOf()))), ("b", Handler(Box::new(NameOf())))]);
    assert_eq!(tr.render().unwrap(), "[a|] [b|one two]!");
}

#[test]
fn set_placeholder_fn_replaces() {
    let mut tr = TemplateRenderer::with_template("<!$ f x>");
    tr.set_placeholder_fn("f", Handler(Box::new(RetErr())));
    tr.set_placeholder_fn("f", Handler(Box::new(Echo())));
    assert_eq!(tr.render().unwrap(), "x");
}

#[test]
fn append_placeholders_merges_later_wins() {
    let mut tr = TemplateRenderer::with_template("<!$ a 1><!$ b 2>");
    tr.set_placeholder_fn("a", Handler(Box::new(RetErr())));
    tr.append_placeholders(vec![("b", Handler(Box::new(RetErr()))), ("a", Handler(Box::new(Echo()))), ("b", Handler(Box::new(NameOf())))]);
    assert_eq!(tr.render().unwrap(), "1[b|2]");
}

#[test]
fn set_placeholders_discards_old() {
    let mut tr = TemplateRenderer::with_template("<!$ a 1>");
    tr.set_placeholder_fn("a", Handler(Box::new(Echo())));
    tr.set_placeholders(vec![("b", Handler(Box::new(Echo())))]);
    assert_eq!(
        tr.render(),
        Err(RenderError::UnknownFunction(PlaceholderExpr { start_idx: 0, end_idx: 8, content: "a 1" }))
    );
}

#[test]
fn stateless_renders_repeat() {
    let mut tr = TemplateRenderer::with_template("<!$ echo a> and <!$ echo b>");
    tr.set_placeholder_fn("echo", Handler(Box::new(Echo())));
    let first = tr.render().unwrap();
    assert_eq!(first, "a and b");
    assert_eq!(tr.render().unwrap(), first);
}

#[test]
fn assemble_replaces_each_tag() {
    let text = "ab<!$ x>cd<!$ y>e";
    let outs = vec!["1".to_string(), "22".to_string()];
    assert_eq!(assemble(text, &vec![(2, 8), (10, 16)], &outs), "ab1cd22e");
    assert_eq!(assemble("plain", &Vec::new(), &Vec::new()), "plain");
}

#[test]
fn error_messages() {
    let unknown = RenderError::UnknownFunction(PlaceholderExpr { start_idx: 120, end_idx: 130, content: "nope x" });
    assert_eq!(unknown.to_string(), "Unknown function at char 120 in placeholder content: 'nope x'");
    let failed = RenderError::FunctionError("err", "test error".to_string());
    assert_eq!(failed.to_string(), "Error in placeholder function err: 'test error'");
    let at_zero = RenderError::UnknownFunction(PlaceholderExpr { start_idx: 0, end_idx: 5, content: "" });
    assert_eq!(at_zero.to_string(), "Unknown function at char 0 in placeholder content: ''");
}

#[test]
fn default_is_empty() {
    let mut tr: TemplateRenderer = Default::default();
    assert_eq!(tr.template_str(), "");
    assert!(tr.placeholders().is_empty());
    assert_eq!(tr.render().unwrap(), "");
}

#[test]
fn non_ascii_text_around_tags() {
    let mut tr = TemplateRenderer::with_template("é<!$ echo ü x>ß");
    tr.set_placeholder_fn("echo", Handler(Box::new(Echo())));
    assert_eq!(tr.render().unwrap(), "éü xß");
}

#[test]
fn unknown_function_byte_offsets() {
    let mut tr = TemplateRenderer::with_template("é<!$ a>");
    assert_eq!(
        tr.render(),
        Err(RenderError::UnknownFunction(PlaceholderExpr { start_idx: 2, end_idx: 8, content: "a" }))
    );
}

#[test]
fn untouched_handler_keeps_state() {
    let mut tr = TemplateRenderer::with_template("<!$ c>");
    tr.set_placeholder_fn("c", Handler(Box::new(Counter(0))));
    tr.set_placeholder_fn("d", Handler(Box::new(Counter(10))));
    assert_eq!(tr.render().unwrap(), "1");
    tr.set_template("<!$ d> <!$ c>");
    assert_eq!(tr.render().unwrap(), "11 2");
}
