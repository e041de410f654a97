use levo::span::{CtxId, Span};

#[test]
fn ctx_handles() {
    let root = CtxId::root();
    assert!(root.is_root());
    assert_eq!(root.as_u32(), 0);
    assert_eq!(CtxId::new(0), root);

    let ctx = CtxId::new(7);
    assert!(!ctx.is_root());
    assert_eq!(ctx.as_u32(), 7);
    assert_ne!(ctx, root);
    let copy = ctx;
    assert_eq!(copy, ctx);
}

#[test]
fn span_accessors() {
    let span = Span::new(10, 4, CtxId::root());
    assert_eq!(span.start(), 10);
    assert_eq!(span.len(), 4);
    assert_eq!(span.end(), 14);
    assert!(!span.is_empty());
    assert!(span.ctx().is_root());

    let empty = Span::new(3, 0, CtxId::new(2));
    assert!(empty.is_empty());
    assert_eq!(empty.end(), 3);
    assert_eq!(empty.ctx().as_u32(), 2);

    let copy = span;
    assert_eq!(copy, span);
}
