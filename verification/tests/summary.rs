use goverify::annotations::{AnnClause, FuncAnnotations};
use goverify::effects::Effects;
use goverify::summary::{
    havoc_with, iface_var_name, instantiate_ensures, instantiate_requires, merge_annotations,
    Clause, Formula, IfaceVar, Provenance, Summary,
};
use goverify::term::{ptr_is_nil, ptr_nil, ptr_sort, Term};

fn clause(term: Term) -> Clause {
    Clause {
        tag: "nil-deref".to_string(),
        formula: Formula { term },
        provenance: Provenance::Inferred,
    }
}

fn nonnil(v: IfaceVar) -> Clause {
    let p = Term::var(&iface_var_name(&v), ptr_sort());
    clause(Term::not(ptr_is_nil(p).unwrap()).unwrap())
}

fn callee_with(requires_: Vec<Clause>) -> Summary {
    let mut s = Summary::default();
    s.requires_ = requires_;
    s
}

fn callee_with_ensures(ensures_: Vec<Clause>) -> Summary {
    let mut s = Summary::default();
    s.ensures_ = ensures_;
    s
}

fn free_names(t: &Term) -> Vec<String> {
    let m = t.free_vars();
    (0..m.len()).map(|i| m.key_at(i).clone()).collect()
}

#[test]
fn nil_arg_binds_to_violation_term() {
    let callee = callee_with(vec![nonnil(IfaceVar::Param(0))]);
    let bound = instantiate_requires(&callee, &vec![Some(ptr_nil())]);
    assert_eq!(bound.len(), 1);
    let v = bound[0].violation.as_ref().expect("bindable");
    assert!(free_names(v).is_empty(), "fully ground violation");
}

#[test]
fn unknown_arg_means_no_violation() {
    let callee = callee_with(vec![nonnil(IfaceVar::Param(0))]);
    assert_eq!(instantiate_requires(&callee, &vec![None])[0].violation, None);
}

#[test]
fn out_of_range_param_means_no_violation() {
    let callee = callee_with(vec![nonnil(IfaceVar::Param(5))]);
    assert_eq!(instantiate_requires(&callee, &vec![])[0].violation, None);
}

#[test]
fn result_var_clause_means_no_violation() {
    let r = Term::var(&iface_var_name(&IfaceVar::Result(0)), ptr_sort());
    let callee = callee_with(vec![clause(ptr_is_nil(r).unwrap())]);
    assert_eq!(instantiate_requires(&callee, &vec![Some(ptr_nil())])[0].violation, None);
}

#[test]
fn sort_mismatched_arg_means_no_violation() {
    let callee = callee_with(vec![nonnil(IfaceVar::Param(0))]);
    let bound = instantiate_requires(&callee, &vec![Some(Term::bool_lit(true))]);
    assert_eq!(bound[0].violation, None);
}

#[test]
fn havoc_summary_has_no_requires() {
    let h = Summary::havoc();
    assert!(h.requires_.is_empty());
    assert_eq!(h.provenance, Provenance::Havoc);
    assert!(h.effects.same(&Effects::top()));
}

#[test]
fn ensures_binds_result_terms() {
    let callee = callee_with_ensures(vec![nonnil(IfaceVar::Result(0))]);
    let dst = Term::var("v7", ptr_sort());
    let bound = instantiate_ensures(&callee, &vec![], &vec![Some(dst)]);
    assert_eq!(bound.len(), 1, "one ensures clause in, one bound clause out");
    let b = bound[0].bound.as_ref().expect("r0 must bind to the dst term");
    assert_eq!(free_names(b), vec!["v7"], "bound clause is over the caller's dst");
}

#[test]
fn ensures_missing_result_term_means_unbindable() {
    let callee = callee_with_ensures(vec![nonnil(IfaceVar::Result(1))]);
    let bound = instantiate_ensures(&callee, &vec![], &vec![Some(ptr_nil()), None]);
    assert_eq!(bound[0].bound, None);
}

#[test]
fn ensures_mixed_param_and_result_vars_bind_both() {
    let p0 = Term::var("p0", ptr_sort());
    let r0 = Term::var("r0", ptr_sort());
    let both = Term::or(vec![
        Term::not(ptr_is_nil(p0).unwrap()).unwrap(),
        Term::not(ptr_is_nil(r0).unwrap()).unwrap(),
    ])
    .unwrap();
    let callee = callee_with_ensures(vec![clause(both)]);
    let out = instantiate_ensures(
        &callee,
        &vec![Some(Term::var("va", ptr_sort()))],
        &vec![Some(Term::var("vd", ptr_sort()))],
    );
    let b = out[0].bound.as_ref().expect("both vars bindable");
    let mut free = free_names(b);
    free.sort();
    assert_eq!(free, vec!["va", "vd"], "mixed clause binds both caller terms");
}

#[test]
fn requires_binding_still_rejects_result_vars() {
    let callee = callee_with(vec![nonnil(IfaceVar::Result(0))]);
    assert_eq!(instantiate_requires(&callee, &vec![Some(ptr_nil())])[0].violation, None);
}

// ---- Annotations ----

fn annotated(c: Clause) -> FuncAnnotations {
    FuncAnnotations {
        requires_: vec![AnnClause { clause: c, text: "x != nil".to_string(), pos: None }],
        ensures_: vec![],
        ignores: vec![],
    }
}

#[test]
fn names_of_the_variables_of_an_interface() {
    assert_eq!(iface_var_name(&IfaceVar::Param(0)), "p0");
    assert_eq!(iface_var_name(&IfaceVar::Param(12)), "p12");
    assert_eq!(iface_var_name(&IfaceVar::Result(4294967295)), "r4294967295");
}

#[test]
fn merging_adds_what_is_new_and_keeps_what_is_there() {
    let mut s = callee_with(vec![nonnil(IfaceVar::Param(0))]);
    let mut again = nonnil(IfaceVar::Param(0));
    again.provenance = Provenance::Annotated;
    merge_annotations(&mut s, Some(&annotated(again)));
    assert_eq!(s.requires_.len(), 1);
    assert_eq!(s.requires_[0].provenance, Provenance::Inferred, "the inferred clause stays");
    let mut other = nonnil(IfaceVar::Param(1));
    other.provenance = Provenance::Annotated;
    merge_annotations(&mut s, Some(&annotated(other)));
    assert_eq!(s.requires_.len(), 2);
    assert_eq!(s.requires_[1].provenance, Provenance::Annotated);
    merge_annotations(&mut s, None);
    assert_eq!(s.requires_.len(), 2);
}

#[test]
fn a_havoc_summary_requires_what_is_annotated() {
    let s = havoc_with(Some(&annotated(nonnil(IfaceVar::Param(0)))));
    assert_eq!(s.requires_, vec![nonnil(IfaceVar::Param(0))]);
    assert_eq!(s.provenance, Provenance::Havoc);
    assert!(s.effects.same(&Effects::top()));
    assert!(havoc_with(None).requires_.is_empty());
}
