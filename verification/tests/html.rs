use http1::forms::one_or_many::OneOrMany;
use http1::html::dsl::{AttrValue, HtmlContext};

#[test]
fn should_build_1_level_html() {
    let mut ctx = HtmlContext::new();
    ctx.open("html".to_string(), false);
    let html = ctx.close().unwrap();
    assert_eq!(html.tag(), "html");
}

#[test]
fn should_build_2_level_html() {
    let mut ctx = HtmlContext::new();
    ctx.open("html".to_string(), false);
    ctx.open("body".to_string(), false);
    assert!(ctx.close().is_none());
    let html = ctx.close().unwrap();

    assert_eq!(html.tag(), "html");
    assert_eq!(html.children().len(), 1);
    assert_eq!(
        html.children().as_slice()[0].as_element().unwrap().tag(),
        "body"
    );
}

#[test]
fn void_parent_drops_children_and_false_attribute_is_skipped() {
    let mut ctx = HtmlContext::new();
    ctx.open("hr".to_string(), true);
    ctx.attr("hidden".to_string(), AttrValue::Bool(false));
    ctx.open("b".to_string(), false);
    assert!(ctx.close().is_none());
    let hr = ctx.close().unwrap();
    assert!(hr.children().is_empty());
    assert!(hr.attributes().is_empty());
    assert!(!ctx.in_document());
}

#[test]
fn first_mut_changes_the_first_value() {
    let mut x = OneOrMany::many(vec![1, 2]);
    *x.first_mut() = 5;
    assert_eq!(x.into_vec(), vec![5, 2]);
    let mut y = OneOrMany::one(1);
    *y.first_mut() = 3;
    assert_eq!(y.into_vec(), vec![3]);
}

#[test]
fn should_build_element() {
    let mut ctx = HtmlContext::new();
    ctx.open("html".to_string(), false);
    ctx.open("head".to_string(), false);
    ctx.open("title".to_string(), false);
    ctx.content("This is a Title".to_string());
    assert!(ctx.close().is_none());
    assert!(ctx.close().is_none());
    ctx.open("body".to_string(), false);
    ctx.open("h1".to_string(), false);
    ctx.attr("class".to_string(), AttrValue::String("text-red".to_string()));
    ctx.content("Hello World!".to_string());
    ctx.open("hr".to_string(), true);
    assert!(ctx.close().is_none());
    assert!(ctx.close().is_none());
    assert!(ctx.close().is_none());
    let html = ctx.close().unwrap();

    assert_eq!(
        html.to_string(),
        r#"<html>
  <head>
    <title>This is a Title</title>
  </head>
  <body>
    <h1 class="text-red">Hello World!
      <hr />
    </h1>
  </body>
</html>
"#
    )
}
