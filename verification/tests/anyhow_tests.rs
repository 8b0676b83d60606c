use lib::anyhow::{ChainItem, Context, Error};

#[test]
fn anyhow_message_and_context() {
    let e = Error::msg("boom".to_string()).context("reading config".to_string());
    assert_eq!(e.to_string(), "reading config");
    assert_eq!(e.root_cause(), "boom");
    assert_eq!(e.debug_text(), "reading config\n\nCaused by:\n    0: boom");
}

#[test]
fn anyhow_chain_order() {
    let e = Error::new(vec!["outer".to_string(), "inner".to_string()])
        .context("first".to_string())
        .context("second".to_string());
    let mut chain = e.chain();
    let mut texts: Vec<String> = Vec::new();
    while let Some(i) = chain.next() {
        texts.push(match i {
            ChainItem::Context(s) => format!("ctx:{}", s),
            ChainItem::Error(s) => format!("err:{}", s),
        });
    }
    assert!(chain.next().is_none());
    assert_eq!(texts, vec!["ctx:second", "ctx:first", "err:outer", "err:inner"]);
    assert_eq!(e.root_cause(), "inner");
    assert_eq!(
        e.debug_text(),
        "second\n\nCaused by:\n    0: first\n    1: outer\n    2: inner"
    );
}

#[test]
fn anyhow_plain_error_has_no_causes() {
    let e = Error::msg("alone".to_string());
    assert_eq!(e.to_string(), "alone");
    assert_eq!(e.debug_text(), "alone");
}

#[test]
fn anyhow_context_on_result_and_option() {
    let r: Result<u32, Error> = Err(Error::msg("low".to_string()));
    let r = r.context("high".to_string());
    assert_eq!(r.unwrap_err().to_string(), "high");
    let ok: Result<u32, Error> = Ok(3);
    assert_eq!(ok.context("unused".to_string()).unwrap(), 3);
    let none: Option<u32> = None;
    assert_eq!(none.context("missing".to_string()).unwrap_err().to_string(), "missing");
    assert_eq!(Some(5).context("unused".to_string()).unwrap(), 5);
}

#[test]
fn anyhow_with_context_is_lazy() {
    let ok: Result<u32, Error> = Ok(3);
    let r = ok.with_context(|| -> String { panic!("not called on a value") });
    assert_eq!(r.unwrap(), 3);
    let bad: Result<u32, Error> = Err(Error::msg("boom".to_string()));
    let e = bad.with_context(|| format!("step {}", 2)).unwrap_err();
    assert_eq!(e.to_string(), "step 2");
    assert_eq!(e.root_cause(), "boom");
    let none: Option<u32> = None;
    let e = none.with_context(|| "missing".to_string()).unwrap_err();
    assert_eq!(e.to_string(), "missing");
    assert_eq!(Some(7u32).with_context(|| "unused".to_string()).unwrap(), 7);
}
