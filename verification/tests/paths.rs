use simplehf::paths::{join_path, plan_paths, safe_relative};
use simplehf::repo_id::{parse_entered_id, validate_repo_id};
use std::path::{Component, Path, PathBuf};

#[test]
fn rejects_paths_that_escape_destination() {
    for path in ["../token", "/etc/passwd", "folder/../../secret", "a\\b"] {
        assert!(safe_relative(path).is_err(), "accepted {path}");
    }
    assert_eq!(
        PathBuf::from(safe_relative("weights/model.safetensors").unwrap()),
        PathBuf::from("weights/model.safetensors")
    );
}

#[test]
fn requires_namespaced_repository_ids() {
    assert!(validate_repo_id("org/model").is_ok());
    assert!(validate_repo_id("model").is_err());
    assert!(validate_repo_id("org/../model").is_err());
}

#[test]
fn refused_ids_and_paths_say_why() {
    assert_eq!(
        validate_repo_id("org").unwrap_err(),
        "repository ID must be organization/model"
    );
    assert_eq!(
        safe_relative("../token").unwrap_err(),
        "unsafe repository path: ../token"
    );
    assert_eq!(parse_entered_id("org").unwrap_err(), "Use organization/model");
}

#[test]
fn halves_of_an_id_can_be_folder_names() {
    for id in ["/model", "org/", "./model", "org/..", "a\\b/c", "a/b\0c", "a/b/c", "", "/"] {
        assert!(validate_repo_id(id).is_err(), "accepted {id:?}");
    }
    for id in ["a/b", ".../b", "a.b/c-d_e", "\u{e9}/\u{4e2d}"] {
        assert!(validate_repo_id(id).is_ok(), "refused {id:?}");
    }
}

#[test]
fn an_entered_id_is_trimmed() {
    assert_eq!(parse_entered_id("  org/model\n").unwrap(), "org/model");
    assert_eq!(parse_entered_id("/org/model/").unwrap(), "org/model");
    assert_eq!(parse_entered_id("\u{3000}//org/model// ").unwrap(), "org/model");
    for input in ["", "org", "org/", "a/b/c", "./b", "a/..", "/ org / model /x"] {
        assert!(parse_entered_id(input).is_err(), "accepted {input:?}");
    }
    // White space inside the slashes is kept.
    assert_eq!(parse_entered_id("/ org/model").unwrap(), " org/model");
}

const SAMPLES: [&str; 30] = [
    "", ".", "..", "a", "a/", "a//", "a/.", "a/./", "a/..", "./a", "../a", "a/b", "a//b", "a/./b",
    "a/../b", "a/b/", "a/b/.", "/", "/a", "//a", "a\\b", "a/b\\", "...", "a/...", ".a", "a/.b",
    ".//a", "a b/c", "\u{e9}/\u{4e2d}", "a/./../b",
];

#[test]
fn safe_paths_are_those_with_normal_components_only() {
    for value in SAMPLES {
        let path = Path::new(value);
        let safe = !path.is_absolute()
            && !value.contains('\\')
            && path
                .components()
                .all(|part| matches!(part, Component::Normal(_)));
        assert_eq!(safe_relative(value).is_ok(), safe, "{value:?}");
        if safe {
            assert_eq!(safe_relative(value).unwrap(), value);
        }
    }
}

#[test]
fn paths_are_joined_as_the_system_joins_them() {
    for base in ["", "a", "a/", "/", "/a/b", "a//", "."] {
        for path in SAMPLES {
            let expected = Path::new(base).join(path);
            assert_eq!(join_path(base, path), expected.to_str().unwrap());
        }
    }
}

#[test]
fn paths_of_a_file_are_those_of_the_system() {
    for destination in ["", "/", "/data", "/data/", "down//loads/.", "../up", "."] {
        for path in SAMPLES {
            let planned = match plan_paths(destination, "org/model", path) {
                Ok(planned) => planned,
                Err(_) => {
                    assert!(safe_relative(path).is_err());
                    continue;
                }
            };
            let target = Path::new(destination).join("org/model").join(path);
            let name = target.file_name().unwrap().to_string_lossy().into_owned();
            let partial = target.with_file_name(format!("{name}.part"));
            let ranges = partial.with_extension("part.ranges");
            let temp = ranges.with_extension("ranges.tmp");
            assert_eq!(planned.target, target.to_str().unwrap());
            assert_eq!(planned.folder, target.parent().unwrap().to_str().unwrap());
            assert_eq!(planned.partial, partial.to_str().unwrap());
            assert_eq!(planned.ranges, ranges.to_str().unwrap());
            assert_eq!(planned.ranges_temp, temp.to_str().unwrap());
        }
    }
}

#[test]
fn a_file_keeps_its_place_in_the_repository() {
    let paths = plan_paths("/home/me", "org/model", "weights/a/model.safetensors").unwrap();
    assert_eq!(paths.target, "/home/me/org/model/weights/a/model.safetensors");
    assert_eq!(paths.folder, "/home/me/org/model/weights/a");
    assert_eq!(paths.partial, "/home/me/org/model/weights/a/model.safetensors.part");
    assert_eq!(
        paths.ranges,
        "/home/me/org/model/weights/a/model.safetensors.part.ranges"
    );
    assert_eq!(
        paths.ranges_temp,
        "/home/me/org/model/weights/a/model.safetensors.part.ranges.tmp"
    );
    assert_eq!(
        plan_paths("/home/me", "org/model", "../x").unwrap_err(),
        "unsafe repository path: ../x"
    );
}
