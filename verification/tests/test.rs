use syn::visit::{self, Visit};
use syn_query::{Kind, Queryable, Tree, TreeBuilder};

const EXPR: Kind = 20;
const EXPR_LIT: Kind = 40;
const EXPR_STRUCT: Kind = 51;
const FIELD_VALUE: Kind = 63;
const IDENT: Kind = 79;
const LIT: Kind = 107;
const LIT_INT: Kind = 113;
const MEMBER: Kind = 119;
const PATH: Kind = 141;
const PATH_ARGUMENTS: Kind = 142;
const PATH_SEGMENT: Kind = 143;
const SPAN: Kind = 150;

/// Hands the steps of a walk of a syntax tree to a builder. It knows the
/// kinds that a record literal with integer fields is made of.
struct Reader {
    builder: TreeBuilder,
}

impl Reader {
    fn leave(&mut self) {
        assert!(self.builder.leave());
    }
}

impl<'ast> Visit<'ast> for Reader {
    fn visit_expr(&mut self, i: &'ast syn::Expr) {
        self.builder.enter(EXPR, "Expr");
        visit::visit_expr(self, i);
        self.leave();
    }

    fn visit_expr_lit(&mut self, i: &'ast syn::ExprLit) {
        self.builder.enter(EXPR_LIT, "ExprLit");
        visit::visit_expr_lit(self, i);
        self.leave();
    }

    fn visit_expr_struct(&mut self, i: &'ast syn::ExprStruct) {
        self.builder.enter(EXPR_STRUCT, "ExprStruct");
        visit::visit_expr_struct(self, i);
        self.leave();
    }

    fn visit_field_value(&mut self, i: &'ast syn::FieldValue) {
        self.builder.enter(FIELD_VALUE, "FieldValue");
        visit::visit_field_value(self, i);
        self.leave();
    }

    fn visit_ident(&mut self, i: &'ast syn::Ident) {
        self.builder.enter(IDENT, i.as_ref());
        visit::visit_ident(self, i);
        self.leave();
    }

    fn visit_lit(&mut self, i: &'ast syn::Lit) {
        self.builder.enter(LIT, "Lit");
        visit::visit_lit(self, i);
        self.leave();
    }

    fn visit_lit_int(&mut self, i: &'ast syn::LitInt) {
        self.builder.enter(LIT_INT, &i.value().to_string());
        visit::visit_lit_int(self, i);
        self.leave();
    }

    fn visit_member(&mut self, i: &'ast syn::Member) {
        self.builder.enter(MEMBER, "Member");
        visit::visit_member(self, i);
        self.leave();
    }

    fn visit_path(&mut self, i: &'ast syn::Path) {
        self.builder.enter(PATH, "Path");
        visit::visit_path(self, i);
        self.leave();
    }

    fn visit_path_arguments(&mut self, i: &'ast syn::PathArguments) {
        self.builder.enter(PATH_ARGUMENTS, "PathArguments");
        visit::visit_path_arguments(self, i);
        self.leave();
    }

    fn visit_path_segment(&mut self, i: &'ast syn::PathSegment) {
        self.builder.enter(PATH_SEGMENT, "PathSegment");
        visit::visit_path_segment(self, i);
        self.leave();
    }

    fn visit_span(&mut self, i: &'ast proc_macro2::Span) {
        self.builder.enter(SPAN, "Span");
        visit::visit_span(self, i);
        self.leave();
    }
}

/// The tree of a record literal as the parser and its walk give it.
fn read(source: &str) -> Tree {
    let parsed: syn::ExprStruct = syn::parse_str(source).unwrap();
    let mut reader = Reader { builder: TreeBuilder::new() };
    reader.visit_expr_struct(&parsed);
    reader.builder.finish().unwrap()
}

#[test]
fn find() {
    let s = "Point { x: 1, y: 1 }";
    let st = read(s);

    let qr = st.find(IDENT);
    assert_eq!(qr.len(), 3);
    assert_eq!(qr[0].data.kind(), IDENT);
    assert_eq!(qr[0].data.label(), "Point");
    assert_eq!(qr[0].path, vec![0i64, 0i64, 0i64]);
    assert_eq!(qr[1].data.label(), "x");
    assert_eq!(qr[1].path, vec![2i64, 0i64, 0i64]);
    assert_eq!(qr[2].data.label(), "y");
    assert_eq!(qr[2].path, vec![3i64, 0i64, 0i64]);

    let qr = st.find(FIELD_VALUE).filter(|x| x.path[0] == 3).find(IDENT);
    assert_eq!(qr.len(), 1);
    assert_eq!(qr[0].data.label(), "y");
    assert_eq!(qr[0].path, vec![3i64, 0i64, 0i64]);
}

#[test]
fn filter() {
    let s = "Point { x: 1, y: 1 }";
    let st = read(s);

    let qr = st.find(FIELD_VALUE).filter(|x| x.path[0] == 3).find(IDENT);
    assert_eq!(qr.len(), 1);
    assert_eq!(qr[0].data.label(), "y");
    assert_eq!(qr[0].path, vec![3i64, 0i64, 0i64]);
}

#[test]
fn children() {
    let s = "Point { x: 1, y: 1 }";
    let st = read(s);

    let qr = st.children(PATH).children(PATH_SEGMENT).children(IDENT);
    assert_eq!(qr.len(), 1);
    assert_eq!(qr[0].data.label(), "Point");
    assert_eq!(qr[0].path, vec![0i64, 0i64, 0i64]);

    let qr = st.children(PATH).children(IDENT);
    assert_eq!(qr.len(), 0);
}

#[test]
fn parent() {
    let s = "Point { x: 1, y: 1 }";
    let st = read(s);

    let qr = st.find(PATH).parents(EXPR_STRUCT);
    assert_eq!(qr.len(), 1);

    let qr = st.find(PATH).parents(PATH);
    assert_eq!(qr.len(), 0);

    let qr = st.find(PATH).parents(EXPR_STRUCT).children(PATH);
    assert_eq!(qr.len(), 1);

    let qr = st
        .find(PATH)
        .parents(EXPR_STRUCT)
        .children(PATH)
        .children(PATH_SEGMENT)
        .children(IDENT);
    assert_eq!(qr.len(), 1);

    let qr = st.children(SPAN).parent(EXPR_STRUCT).find(IDENT);
    assert_eq!(qr.len(), 3);
    assert_eq!(qr[0].data.label(), "Point");
    let qr = st.children(SPAN).parent(EXPR_STRUCT).parent(EXPR_STRUCT);
    assert_eq!(qr.len(), 0);
}

#[test]
fn next() {
    let s = "Point { x: 1, y: 1 }";
    let st = read(s);

    let qr = st.find(SPAN).next(FIELD_VALUE).find(IDENT);
    assert_eq!(qr.len(), 1);
    assert_eq!(qr[0].data.label(), "x");

    let qr = st.find(PATH).next(SPAN);
    assert_eq!(qr.len(), 1);
    assert_eq!(qr[0].data.kind(), SPAN);
    assert_eq!(qr[0].data.label(), "Span");

    let qr = st.find(SPAN).next_all(FIELD_VALUE);
    assert_eq!(qr.len(), 2);
    assert_eq!(qr[0].data.find(IDENT)[0].data.label(), "x");

    let qr = st
        .find(SPAN)
        .next_until(FIELD_VALUE, |node| node.data.find(IDENT)[0].data.label() == "y");
    assert_eq!(qr.len(), 1);
    assert_eq!(qr[0].data.find(IDENT)[0].data.label(), "x");
}

#[test]
fn prev() {
    let s = "Point { x: 1, y: 1 }";
    let st = read(s);

    let qr = st.find(FIELD_VALUE).prev(FIELD_VALUE).find(IDENT);
    assert_eq!(qr.len(), 1);
    assert_eq!(qr[0].data.label(), "x");

    let qr = st.find(SPAN).prev(PATH).find(IDENT);
    assert_eq!(qr.len(), 1);
    assert_eq!(qr[0].data.label(), "Point");

    let qr = st.find(SPAN).prev_all(PATH);
    assert_eq!(qr.len(), 1);

    let qr = st
        .find(SPAN)
        .prev_until(PATH, |node| node.data.find(IDENT)[0].data.label() == "Point");
    assert_eq!(qr.len(), 0);
}

#[test]
fn siblings() {
    let s = "Point { x: 1, y: 1 }";
    let st = read(s);

    let qr = st.find(PATH).siblings(FIELD_VALUE);
    assert_eq!(qr.len(), 2);
    assert_eq!(qr.find(IDENT)[1].data.label(), "y");
}

#[test]
fn first() {
    let s = "Point { x: 1, y: 1 }";
    let st = read(s);

    let qr = st.find(IDENT).first();
    assert_eq!(qr.unwrap().data.label(), "Point");
}

#[test]
fn last() {
    let s = "Point { x: 1, y: 1 }";
    let st = read(s);

    let qr = st.find(IDENT).last();
    assert_eq!(qr.unwrap().data.label(), "y");
}

#[test]
fn eq() {
    let s = "Point { x: 1, y: 1 }";
    let st = read(s);

    let qr = st.find(IDENT).eq(-1);
    assert_eq!(qr.unwrap().data.label(), "y");

    let qr = st.find(IDENT).eq(1);
    assert_eq!(qr.unwrap().data.label(), "x");
}

#[test]
fn map() {
    let s = "Point { x: 1, y: 1 }";
    let st = read(s);

    let qr = st.find(IDENT).map(|node| node.data);
    assert_eq!(qr.len(), 3);
    assert_eq!(qr[0].label(), "Point");
}

#[test]
fn is() {
    let s = "Point { x: 1, y: 1 }";
    let st = read(s);

    let qr = st.find(IDENT).is(|node| node.data.label() == "Point");
    assert_eq!(qr, true);
}

#[test]
fn has() {
    let s = "Point { x: 1, y: 1 }";
    let st = read(s);

    let qr = st.find(IDENT).has();
    assert_eq!(qr, true);
}

#[test]
fn not() {
    let s = "Point { x: 1, y: 1 }";
    let st = read(s);

    let qr = st.find(IDENT).not(|node| node.data.label() == "Point");
    assert_eq!(qr.len(), 2);
    assert_eq!(qr[1].data.label(), "y");
}
