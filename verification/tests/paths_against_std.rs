use bakkes_sync::path_safety::{
    components_chars, destination, ensure_under, resolve_nonexistent, validate_relative, Probe,
    Resolution,
};
use bakkes_sync::plugins::module_stem_chars;
use bakkes_sync::text::{from_chars, to_chars};
use std::path::{Component, Path, PathBuf};

/// Paths made of up to four pieces, with and without a leading and a
/// trailing separator.
fn samples() -> Vec<String> {
    let pieces = ["a", "b.dll", "X.DLL", ".dll", "c.d.Dll", ".", "..", "", "...", "e."];
    let mut bodies: Vec<String> = vec![String::new()];
    let mut level: Vec<String> = vec![String::new()];
    for depth in 0..4 {
        let mut next = Vec::new();
        for prefix in &level {
            for piece in pieces {
                if depth == 0 {
                    next.push(piece.to_string());
                } else {
                    next.push(format!("{prefix}/{piece}"));
                }
            }
        }
        bodies.extend(next.iter().cloned());
        level = next.into_iter().step_by(depth * 3 + 1).collect();
    }
    let mut all = Vec::new();
    for body in bodies {
        all.push(body.clone());
        all.push(format!("/{body}"));
        all.push(format!("{body}/"));
    }
    all
}

fn components_of_std(path: &str) -> Vec<String> {
    Path::new(path)
        .components()
        .map(|c| match c {
            Component::RootDir => "/".to_string(),
            Component::CurDir => ".".to_string(),
            Component::ParentDir => "..".to_string(),
            Component::Normal(name) => name.to_string_lossy().to_string(),
            Component::Prefix(_) => unreachable!(),
        })
        .collect()
}

#[test]
fn there_are_many_samples() {
    assert!(samples().len() > 1000);
}

#[test]
fn components_agree_with_std() {
    for path in samples() {
        let ours: Vec<String> =
            components_chars(&to_chars(&path)).iter().map(from_chars).collect();
        assert_eq!(ours, components_of_std(&path), "{path:?}");
    }
}

#[test]
fn validation_agrees_with_the_components_of_std() {
    for path in samples() {
        let escapes = Path::new(&path)
            .components()
            .any(|c| matches!(c, Component::ParentDir | Component::RootDir));
        assert_eq!(validate_relative(&path).is_err(), escapes, "{path:?}");
    }
}

#[test]
fn modules_agree_with_the_extension_and_stem_of_std() {
    for path in samples() {
        let p = Path::new(&path);
        let expected = match (p.extension(), p.file_stem()) {
            (Some(ext), Some(stem)) if ext.eq_ignore_ascii_case("dll") => {
                Some(stem.to_string_lossy().to_ascii_lowercase())
            }
            _ => None,
        };
        let ours = module_stem_chars(&to_chars(&path)).map(|s| from_chars(&s));
        assert_eq!(ours, expected, "{path:?}");
    }
}

#[test]
fn destinations_agree_with_join_of_std() {
    for root in ["/data", "/data/", "data", "/", ""] {
        for rel in samples() {
            if rel.starts_with('/') {
                continue;
            }
            let expected = Path::new(root).join(&rel).to_string_lossy().to_string();
            assert_eq!(destination(root, &rel), expected, "{root:?} {rel:?}");
        }
    }
}

#[test]
fn containment_agrees_with_starts_with_of_std() {
    let all = samples();
    let bases = ["/a", "/a/", "/", "a", "", ".", "/a/b.dll", "/a/..", "a/./b.dll"];
    for target in all.iter().step_by(7) {
        for base in bases {
            let ours = ensure_under(
                target,
                &vec![Probe::Canonical(target.clone())],
                &Probe::Canonical(base.to_string()),
            );
            assert_eq!(ours.is_ok(), Path::new(target).starts_with(base), "{target:?} {base:?}");
        }
    }
}

#[test]
fn the_ancestors_probed_are_those_that_std_pops_and_then_the_current_directory() {
    for path in samples() {
        let mut probes = Vec::new();
        let mut existing = PathBuf::from(&path);
        loop {
            match resolve_nonexistent(&path, &probes) {
                Resolution::Pending(next) => {
                    if existing.to_string_lossy().is_empty() {
                        assert_eq!(next, ".", "{path:?}");
                    } else {
                        assert_eq!(Path::new(&next), existing.as_path(), "{path:?}");
                        if probes.is_empty() {
                            assert_eq!(next, path);
                        }
                    }
                    probes.push(Probe::Missing);
                    if existing.file_name().is_some() {
                        existing.pop();
                    } else {
                        assert_eq!(
                            resolve_nonexistent(&path, &probes),
                            Resolution::Resolved(path.clone()),
                            "{path:?}"
                        );
                        break;
                    }
                }
                other => panic!("{path:?}: {other:?}"),
            }
        }
    }
}

#[test]
fn resolution_puts_back_what_std_pushes() {
    for path in samples() {
        let mut probes = Vec::new();
        let mut existing = PathBuf::from(&path);
        let mut tail: Vec<String> = Vec::new();
        loop {
            let mut found = probes.clone();
            found.push(Probe::Canonical("/real/base".to_string()));
            let mut expected = PathBuf::from("/real/base");
            for part in tail.iter().rev() {
                expected.push(part);
            }
            assert_eq!(
                resolve_nonexistent(&path, &found),
                Resolution::Resolved(expected.to_string_lossy().to_string()),
                "{path:?}"
            );
            match existing.file_name() {
                Some(name) => {
                    tail.push(name.to_string_lossy().to_string());
                    existing.pop();
                    probes.push(Probe::Missing);
                }
                None => break,
            }
        }
    }
}
