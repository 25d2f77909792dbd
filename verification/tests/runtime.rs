use kobold::branch::Branch2;
use kobold::list::List;
use kobold::root::{rerender, start};
use kobold::signal::ShouldRender;
use kobold::surface::{Handle, Mutation, Surface};
use kobold::util::reversed;
use kobold::value::Text;
use kobold::view::{Html, IntoHtml, Mountable};

fn text(content: &str) -> Text {
    Text { content: content.to_string() }
}

fn texts(contents: &[&str]) -> List<Text> {
    List { items: contents.iter().map(|content| text(content)).collect() }
}

fn h(id: usize) -> Handle {
    Handle { id }
}

fn create_text(id: usize, content: &str) -> Mutation {
    Mutation::CreateText { handle: h(id), content: content.to_string() }
}

fn set_text(id: usize, content: &str) -> Mutation {
    Mutation::SetText { handle: h(id), content: content.to_string() }
}

fn mount(parent: usize, child: usize) -> Mutation {
    Mutation::Mount { parent: h(parent), child: h(child) }
}

fn abc_log() -> Vec<Mutation> {
    vec![
        Mutation::CreateAnchor { handle: h(0) },
        create_text(1, "a"),
        mount(0, 1),
        create_text(3, "b"),
        mount(0, 3),
        create_text(5, "c"),
        mount(0, 5),
    ]
}

#[test]
fn new_surface_is_empty() {
    let surface = Surface::new();
    assert_eq!(surface.len(), 0);
    assert!(surface.mutations().is_empty());
    assert!(!surface.is_hooked());
}

#[test]
fn surface_records_in_order() {
    let mut surface = Surface::new();
    let first = surface.create_anchor();
    let second = surface.create_text("x".to_string());
    surface.mount(first, second);
    surface.set_text(second, "y".to_string());
    surface.replace(second, first);
    surface.unmount(first);
    surface.install(second);
    surface.hook();
    assert_eq!(first, h(0));
    assert_eq!(second, h(1));
    assert_eq!(surface.len(), 8);
    assert!(surface.is_hooked());
    assert_eq!(
        surface.mutations(),
        &vec![
            Mutation::CreateAnchor { handle: h(0) },
            create_text(1, "x"),
            mount(0, 1),
            set_text(1, "y"),
            Mutation::Replace { previous: h(1), next: h(0) },
            Mutation::Unmount { handle: h(0) },
            Mutation::Start { root: h(1) },
            Mutation::Hook,
        ]
    );
}

#[test]
fn text_builds_one_node() {
    let mut surface = Surface::new();
    let product = text("A").build(&mut surface);
    assert_eq!(product.js(), h(0));
    assert_eq!(product.memo(), "A");
    assert_eq!(surface.mutations(), &vec![create_text(0, "A")]);
}

#[test]
fn text_update_with_the_same_content_changes_nothing() {
    let mut surface = Surface::new();
    let mut product = text("A").build(&mut surface);
    text("A").update(&mut product, &mut surface);
    assert_eq!(surface.len(), 1);
    assert_eq!(product.memo(), "A");
    assert_eq!(product.js(), h(0));
}

#[test]
fn text_update_with_other_content_rewrites_once() {
    let mut surface = Surface::new();
    let mut product = text("A").build(&mut surface);
    text("B").update(&mut product, &mut surface);
    assert_eq!(surface.mutations(), &vec![create_text(0, "A"), set_text(0, "B")]);
    assert_eq!(product.memo(), "B");
    assert_eq!(product.js(), h(0));
    text("B").update(&mut product, &mut surface);
    assert_eq!(surface.len(), 2);
}

#[test]
fn list_builds_and_mounts_in_order() {
    let mut surface = Surface::new();
    let product = texts(&["a", "b", "c"]).build(&mut surface);
    assert_eq!(product.js(), h(0));
    assert_eq!(surface.mutations(), &abc_log());
    let handles: Vec<Handle> = product.items().iter().map(|item| item.js()).collect();
    assert_eq!(handles, vec![h(1), h(3), h(5)]);
}

#[test]
fn empty_list_builds_its_anchor_only() {
    let mut surface = Surface::new();
    let product = texts(&[]).build(&mut surface);
    assert_eq!(product.js(), h(0));
    assert!(product.items().is_empty());
    assert_eq!(surface.mutations(), &vec![Mutation::CreateAnchor { handle: h(0) }]);
}

#[test]
fn shorter_list_unmounts_the_tail() {
    let mut surface = Surface::new();
    let mut product = texts(&["a", "b", "c"]).build(&mut surface);
    texts(&["a", "b"]).update(&mut product, &mut surface);
    let mut expected = abc_log();
    expected.push(Mutation::Unmount { handle: h(5) });
    assert_eq!(surface.mutations(), &expected);
    let handles: Vec<Handle> = product.items().iter().map(|item| item.js()).collect();
    assert_eq!(handles, vec![h(1), h(3)]);
    assert_eq!(product.items()[0].memo(), "a");
    assert_eq!(product.items()[1].memo(), "b");
    assert_eq!(product.js(), h(0));
}

#[test]
fn longer_list_mounts_at_the_tail() {
    let mut surface = Surface::new();
    let mut product = texts(&["a", "b", "c"]).build(&mut surface);
    texts(&["a", "b", "c", "d"]).update(&mut product, &mut surface);
    let mut expected = abc_log();
    expected.push(create_text(7, "d"));
    expected.push(mount(0, 7));
    assert_eq!(surface.mutations(), &expected);
    let handles: Vec<Handle> = product.items().iter().map(|item| item.js()).collect();
    assert_eq!(handles, vec![h(1), h(3), h(5), h(7)]);
    assert_eq!(product.items()[3].memo(), "d");
}

#[test]
fn list_updates_in_place() {
    let mut surface = Surface::new();
    let mut product = texts(&["a", "b", "c"]).build(&mut surface);
    texts(&["a", "x", "c"]).update(&mut product, &mut surface);
    let mut expected = abc_log();
    expected.push(set_text(3, "x"));
    assert_eq!(surface.mutations(), &expected);
    let handles: Vec<Handle> = product.items().iter().map(|item| item.js()).collect();
    assert_eq!(handles, vec![h(1), h(3), h(5)]);
    assert_eq!(product.items()[1].memo(), "x");
}

#[test]
fn list_updates_then_unmounts_several() {
    let mut surface = Surface::new();
    let mut product = texts(&["a", "b", "c"]).build(&mut surface);
    texts(&["z"]).update(&mut product, &mut surface);
    let mut expected = abc_log();
    expected.push(set_text(1, "z"));
    expected.push(Mutation::Unmount { handle: h(3) });
    expected.push(Mutation::Unmount { handle: h(5) });
    assert_eq!(surface.mutations(), &expected);
    assert_eq!(product.items().len(), 1);
}

#[test]
fn list_can_empty_and_fill_again() {
    let mut surface = Surface::new();
    let mut product = texts(&["a"]).build(&mut surface);
    texts(&[]).update(&mut product, &mut surface);
    assert!(product.items().is_empty());
    texts(&["b", "c"]).update(&mut product, &mut surface);
    assert_eq!(
        surface.mutations(),
        &vec![
            Mutation::CreateAnchor { handle: h(0) },
            create_text(1, "a"),
            mount(0, 1),
            Mutation::Unmount { handle: h(1) },
            create_text(4, "b"),
            mount(0, 4),
            create_text(6, "c"),
            mount(0, 6),
        ]
    );
}

#[test]
fn list_of_lists_reconciles_inside() {
    let mut surface = Surface::new();
    let rows = List { items: vec![texts(&["a"]), texts(&["b", "c"])] };
    let mut product = rows.build(&mut surface);
    assert_eq!(
        surface.mutations(),
        &vec![
            Mutation::CreateAnchor { handle: h(0) },
            Mutation::CreateAnchor { handle: h(1) },
            create_text(2, "a"),
            mount(1, 2),
            mount(0, 1),
            Mutation::CreateAnchor { handle: h(5) },
            create_text(6, "b"),
            mount(5, 6),
            create_text(8, "c"),
            mount(5, 8),
            mount(0, 5),
        ]
    );
    let rows = List { items: vec![texts(&["a", "x"]), texts(&["b"])] };
    rows.update(&mut product, &mut surface);
    assert_eq!(
        &surface.mutations()[11..],
        &[create_text(11, "x"), mount(1, 11), Mutation::Unmount { handle: h(8) }]
    );
}

#[test]
fn vec_becomes_a_list() {
    let mut surface = Surface::new();
    let product = vec![text("a"), text("b")].into_html().build(&mut surface);
    assert_eq!(product.items().len(), 2);
    assert_eq!(surface.len(), 5);
}

#[test]
fn a_view_is_its_own_html() {
    assert_eq!(text("a").into_html(), text("a"));
}

#[test]
fn reversed_turns_the_order() {
    assert_eq!(reversed(vec![1, 2, 3]), vec![3, 2, 1]);
    assert_eq!(reversed(Vec::<u8>::new()), Vec::<u8>::new());
}

#[test]
fn branch_builds_under_an_anchor() {
    let mut surface = Surface::new();
    let view: Branch2<Text, List<Text>> = Branch2::A(text("show"));
    let product = view.build(&mut surface);
    assert_eq!(product.js(), h(0));
    assert_eq!(
        surface.mutations(),
        &vec![Mutation::CreateAnchor { handle: h(0) }, create_text(1, "show"), mount(0, 1)]
    );
    assert!(matches!(product.shape(), Branch2::A(_)));
}

#[test]
fn branch_of_the_same_shape_updates_in_place() {
    let mut surface = Surface::new();
    let view: Branch2<Text, List<Text>> = Branch2::A(text("show"));
    let mut product = view.build(&mut surface);
    let view: Branch2<Text, List<Text>> = Branch2::A(text("shown"));
    view.update(&mut product, &mut surface);
    assert_eq!(&surface.mutations()[3..], &[set_text(1, "shown")]);
    let view: Branch2<Text, List<Text>> = Branch2::A(text("shown"));
    view.update(&mut product, &mut surface);
    assert_eq!(surface.len(), 4);
    assert_eq!(product.js(), h(0));
}

#[test]
fn branch_switch_tears_down_before_it_builds() {
    let mut surface = Surface::new();
    let view: Branch2<Text, List<Text>> = Branch2::A(text("show"));
    let mut product = view.build(&mut surface);
    let view: Branch2<Text, List<Text>> = Branch2::B(texts(&["edit"]));
    view.update(&mut product, &mut surface);
    assert_eq!(
        &surface.mutations()[3..],
        &[
            Mutation::Unmount { handle: h(1) },
            Mutation::CreateAnchor { handle: h(4) },
            create_text(5, "edit"),
            mount(4, 5),
            mount(0, 4),
        ]
    );
    assert_eq!(product.js(), h(0));
    match product.shape() {
        Branch2::B(list) => assert_eq!(list.js(), h(4)),
        Branch2::A(_) => panic!("the old shape is still there"),
    }
    let view: Branch2<Text, List<Text>> = Branch2::A(text("show"));
    view.update(&mut product, &mut surface);
    assert_eq!(
        &surface.mutations()[8..],
        &[Mutation::Unmount { handle: h(4) }, create_text(9, "show"), mount(0, 9)]
    );
    match product.shape() {
        Branch2::A(shown) => assert_eq!(shown.js(), h(9)),
        Branch2::B(_) => panic!("the old shape is still there"),
    }
}

#[test]
fn products_mount_unmount_and_replace() {
    let mut surface = Surface::new();
    let parent = surface.create_anchor();
    let first = text("1").build(&mut surface);
    let second = text("2").build(&mut surface);
    first.mount(parent, &mut surface);
    second.mount_replace(first.js(), &mut surface);
    second.unmount(&mut surface);
    assert_eq!(
        &surface.mutations()[3..],
        &[
            mount(0, 1),
            Mutation::Replace { previous: h(1), next: h(2) },
            Mutation::Unmount { handle: h(2) },
        ]
    );
}

#[test]
fn start_hooks_once_and_installs_the_root() {
    let mut surface = Surface::new();
    let root = start(text("app"), &mut surface);
    assert_eq!(root.js(), h(1));
    assert_eq!(
        surface.mutations(),
        &vec![Mutation::Hook, create_text(1, "app"), Mutation::Start { root: h(1) }]
    );
    let again = start(text("more"), &mut surface);
    assert_eq!(again.js(), h(3));
    assert_eq!(
        &surface.mutations()[3..],
        &[create_text(3, "more"), Mutation::Start { root: h(3) }]
    );
}

#[test]
fn a_value_that_may_be_missing_becomes_a_list() {
    let mut surface = Surface::new();
    let mut product = Some(text("a")).into_html().build(&mut surface);
    assert_eq!(product.items().len(), 1);
    assert_eq!(
        surface.mutations(),
        &vec![Mutation::CreateAnchor { handle: h(0) }, create_text(1, "a"), mount(0, 1)]
    );
    let missing: Option<Text> = None;
    missing.into_html().update(&mut product, &mut surface);
    assert!(product.items().is_empty());
    assert_eq!(&surface.mutations()[3..], &[Mutation::Unmount { handle: h(1) }]);
}

#[test]
fn rerender_renders_on_yes_only() {
    let mut surface = Surface::new();
    let mut product = text("a").build(&mut surface);
    rerender(ShouldRender::No, text("b"), &mut product, &mut surface);
    assert_eq!(surface.len(), 1);
    assert_eq!(product.memo(), "a");
    rerender(ShouldRender::Yes, text("b"), &mut product, &mut surface);
    assert_eq!(surface.mutations(), &vec![create_text(0, "a"), set_text(0, "b")]);
    assert_eq!(product.memo(), "b");
    rerender(ShouldRender::from(()), text("c"), &mut product, &mut surface);
    assert_eq!(product.memo(), "c");
}
