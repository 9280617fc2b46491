use vortex_verus::compressor::CascadingCompressor;
use vortex_verus::compressor::ChildSelection;
use vortex_verus::compressor::Scheme;
use vortex_verus::compressor::SchemeId;

fn scheme(name: &'static str, replaces: &[&'static str]) -> Scheme {
    Scheme {
        id: SchemeId { name },
        replaces: replaces.iter().map(|name| SchemeId { name }).collect(),
    }
}

fn v1() -> Scheme {
    scheme("test.scheme_v1", &[])
}

fn v2() -> Scheme {
    scheme("test.scheme_v2", &["test.scheme_v1"])
}

fn v3() -> Scheme {
    scheme("test.scheme_v3", &["test.scheme_v2"])
}

fn other() -> Scheme {
    scheme("test.other", &[])
}

fn active(compressor: &CascadingCompressor<'_>) -> Vec<&'static str> {
    compressor
        .schemes()
        .iter()
        .map(|scheme| scheme.id.name)
        .collect()
}

#[test]
fn a_replacement_drops_the_schemes_it_names() {
    let (v1, v2) = (v1(), v2());
    assert_eq!(
        active(&CascadingCompressor::new(vec![&v2, &v1])),
        vec!["test.scheme_v2"]
    );
    assert_eq!(
        active(&CascadingCompressor::new(vec![&v1])),
        vec!["test.scheme_v1"]
    );
}

#[test]
fn replacement_is_transitive() {
    let (v1, v2, v3) = (v1(), v2(), v3());
    assert_eq!(
        active(&CascadingCompressor::new(vec![&v3, &v2, &v1])),
        vec!["test.scheme_v3"]
    );
}

#[test]
fn replacement_only_follows_given_schemes() {
    let (v1, v3) = (v1(), v3());
    assert_eq!(
        active(&CascadingCompressor::new(vec![&v3, &v1])),
        vec!["test.scheme_v3", "test.scheme_v1"]
    );
}

#[test]
fn registration_order_is_preserved() {
    let (v1, v2, v3, other) = (v1(), v2(), v3(), other());
    assert_eq!(
        active(&CascadingCompressor::new(vec![&other, &v3, &v2, &v1])),
        vec!["test.other", "test.scheme_v3"]
    );
}

#[test]
fn replacing_an_unregistered_scheme_is_a_no_op() {
    let v2 = v2();
    assert_eq!(
        active(&CascadingCompressor::new(vec![&v2])),
        vec!["test.scheme_v2"]
    );
}

#[test]
fn has_scheme_reports_the_active_version() {
    let (v1, v2) = (v1(), v2());
    let compressor = CascadingCompressor::new(vec![&v2, &v1]);
    assert!(compressor.has_scheme(v2.id));
    assert!(!compressor.has_scheme(v1.id));
}

#[test]
fn offsets_of_lists_are_not_encoded_by_a_dictionary() {
    let compressor = CascadingCompressor::new(vec![]);
    assert_eq!(compressor.root_exclusions().len(), 1);
    assert_eq!(
        compressor.root_exclusions()[0].excluded.name,
        "vortex.int.dict"
    );
    assert_eq!(
        compressor.root_exclusions()[0].children,
        ChildSelection::One(1)
    );
}
