use kobold::signal::ShouldRender;

#[test]
fn yes_renders() {
    assert!(ShouldRender::Yes.should_render());
}

#[test]
fn no_does_not_render() {
    assert!(!ShouldRender::No.should_render());
}

#[test]
fn no_information_renders() {
    assert_eq!(ShouldRender::from(()), ShouldRender::Yes);
    assert!(ShouldRender::from(()).should_render());
}
