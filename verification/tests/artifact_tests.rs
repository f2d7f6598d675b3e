use fivem_utils::artifacts::{Artifact, ArtifactServer};

const BASE: &str = "http://artifacts.example/";

fn body_with(entries: &str) -> String {
    format!("<html><body>{}</body></html>", entries)
}

#[test]
fn without_a_body_every_query_degrades() {
    let mut s = ArtifactServer::new(BASE);
    assert!(!s.has_body());
    assert!(s.get_artifacts().is_empty());
    assert_eq!(s.get_latest_version_num(), 0);
    assert_eq!(s.get_artifact(1234), None);
}

#[test]
fn artifacts_are_extracted_from_the_index() {
    let mut s = ArtifactServer::new(BASE);
    s.set_body(body_with(
        "<a href=\"1234-0123abcd/fx.tar.xz\">x</a> <a href=\"77-deadbeef/fx.tar.xz\">y</a>",
    ));
    assert!(s.has_body());
    let arts = s.get_artifacts();
    assert_eq!(arts.len(), 2);
    assert_eq!(
        arts[0],
        Artifact {
            url: format!("{}1234-0123abcd/", BASE),
            num: 1234,
            hash: "0123abcd".to_string(),
        }
    );
    assert_eq!(arts[1].num, 77);
    assert_eq!(arts[1].hash, "deadbeef");
}

#[test]
fn duplicate_numbers_keep_the_first_entry() {
    let mut s = ArtifactServer::new(BASE);
    s.set_body(body_with("7-aa/fx.tar.xz 7-bb/fx.tar.xz 8-cc/fx.tar.xz"));
    let arts = s.get_artifacts();
    assert_eq!(arts.len(), 2);
    assert_eq!(arts[0].num, 7);
    assert_eq!(arts[0].hash, "aa");
    assert_eq!(arts[1].num, 8);
}

#[test]
fn numbers_that_overflow_sixteen_bits_are_skipped() {
    let mut s = ArtifactServer::new(BASE);
    s.set_body(body_with("99999-aa/fx.tar.xz 12-bb/fx.tar.xz"));
    let arts = s.get_artifacts();
    assert_eq!(arts.len(), 1);
    assert_eq!(arts[0].num, 12);
}

#[test]
fn the_recommended_build_is_reported() {
    let mut s = ArtifactServer::new(BASE);
    s.set_body(body_with("LATEST RECOMMENDED (1234) 1234-aa/fx.tar.xz"));
    assert_eq!(s.get_latest_version_num(), 1234);
}

#[test]
fn without_a_recommendation_the_latest_is_zero() {
    let mut s = ArtifactServer::new(BASE);
    s.set_body(body_with("1234-aa/fx.tar.xz"));
    assert_eq!(s.get_latest_version_num(), 0);
}

#[test]
fn lookup_finds_exactly_the_listed_numbers() {
    let mut s = ArtifactServer::new(BASE);
    s.set_body(body_with("5-aa/fx.tar.xz 6-bb/fx.tar.xz"));
    let a = s.get_artifact(6).unwrap();
    assert_eq!(a.url, format!("{}6-bb/", BASE));
    assert_eq!(a.hash, "bb");
    assert_eq!(s.get_artifact(7), None);
}

#[test]
fn queries_are_answered_from_the_cache() {
    let mut s = ArtifactServer::new(BASE);
    s.set_body(body_with("RECOMMENDED (9) 9-ff/fx.tar.xz"));
    let first = s.get_artifacts();
    let second = s.get_artifacts();
    assert_eq!(first, second);
    assert_eq!(s.get_latest_version_num(), 9);
    assert_eq!(s.get_latest_version_num(), 9);
}

#[test]
fn a_new_body_discards_stale_caches() {
    let mut s = ArtifactServer::new(BASE);
    s.set_body(body_with("1-aa/fx.tar.xz"));
    assert_eq!(s.get_artifacts().len(), 1);
    s.set_body(body_with("2-bb/fx.tar.xz 3-cc/fx.tar.xz"));
    let arts = s.get_artifacts();
    assert_eq!(arts.len(), 2);
    assert_eq!(arts[0].num, 2);
}
