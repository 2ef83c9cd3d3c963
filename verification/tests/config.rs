use fs_tracker::config::{
    check_exclusions, check_policy, check_policy_size, check_roots, entries, parse_exclusions,
    parse_recursive_exclusions, parse_roots, policy_limits, validate_output, ConfigError, Entry, Exclusion, Limits,
    OutputStep, Policy, PolicyLimits, PolicyPair, Root, RootsStep,
};

fn root(id: &str, path: &str) -> Root {
    Root { id: id.into(), path: path.as_bytes().to_vec() }
}

fn exclusion(root_id: &str, relative: &str) -> Exclusion {
    Exclusion { root_id: root_id.into(), relative: relative.as_bytes().to_vec() }
}

fn found(path: &str) -> Result<Vec<u8>, String> {
    Ok(path.as_bytes().to_vec())
}

fn done(step: RootsStep) -> Vec<(String, Vec<u8>)> {
    match step {
        RootsStep::Done(roots) => roots.into_iter().map(|root| (root.id, root.path)).collect(),
        RootsStep::Resolve(path) => panic!("asked for {:?}", path),
    }
}

#[test]
fn default_limits_are_bounded() {
    let limits = Limits::default();
    assert!(limits.max_files > 0);
    assert!(limits.max_total_bytes >= limits.max_file_bytes);
}

#[test]
fn default_limits_are_the_documented_ones() {
    let limits = Limits::default();
    assert_eq!(limits.max_files, 10_000);
    assert_eq!(limits.max_file_bytes, 33_554_432);
    assert_eq!(limits.max_total_bytes, 268_435_456);
    assert_eq!(limits.max_diff_bytes, 2_097_152);
}

#[test]
fn rejects_bad_root_id_before_io() {
    let error = parse_roots(&["bad/id=/tmp".into()], &[]).unwrap_err();
    assert!(matches!(error, ConfigError::InvalidRootId(_)));
}

#[test]
fn validates_and_reduces_exclusions() {
    let roots = vec![root("main", "/workspace")];
    let exclusions = parse_exclusions(
        &[
            "main=node_modules/pkg".into(),
            "main=node_modules".into(),
            "main=.venv".into(),
            "main=.venv".into(),
        ],
        &roots,
    )
    .unwrap();
    assert_eq!(
        exclusions,
        vec![
            Exclusion { root_id: "main".into(), relative: b".venv".to_vec() },
            Exclusion { root_id: "main".into(), relative: b"node_modules".to_vec() },
        ]
    );
    assert!(matches!(
        parse_exclusions(&["other=.venv".into()], &roots),
        Err(ConfigError::UnknownExclusionRoot(_))
    ));
    assert!(matches!(
        parse_exclusions(&["main=../outside".into()], &roots),
        Err(ConfigError::InvalidExclusionPath(_))
    ));
}

#[test]
fn exclusions_keep_siblings_with_a_common_beginning() {
    let roots = vec![root("a", "/a"), root("b", "/b")];
    let exclusions = parse_exclusions(
        &["b=x".into(), "a=.venv-old".into(), "a=.venv".into(), "a=x//y/".into(), "b=x/y".into()],
        &roots,
    )
    .unwrap();
    assert_eq!(
        exclusions,
        vec![
            exclusion("a", ".venv"),
            exclusion("a", ".venv-old"),
            exclusion("a", "x/y"),
            exclusion("b", "x"),
        ]
    );
}

#[test]
fn every_faulty_exclusion_is_named() {
    let roots = vec![root("main", "/workspace")];
    match parse_exclusions(&["nothing".into()], &roots) {
        Err(error) => assert_eq!(
            error.message(),
            "exclusion must use ROOT_ID=RELATIVE_PATH syntax: nothing"
        ),
        Ok(_) => panic!("accepted"),
    }
    for path in ["", "/etc", ".", "..", "a/../b", "./a"] {
        match parse_exclusions(&[format!("main={path}")], &roots) {
            Err(ConfigError::InvalidExclusionPath(raw)) => assert_eq!(raw, path),
            other => panic!("{path}: {other:?}"),
        }
    }
    match parse_exclusions(&["other=a".into(), "nothing".into()], &roots) {
        Err(error) => assert_eq!(error.message(), "exclusion references unknown root ID: other"),
        Ok(_) => panic!("accepted"),
    }
}

#[test]
fn roots_ask_for_one_path_after_the_other() {
    let values = vec!["b=/x/b".to_string(), "a=rel=ative".to_string()];
    match parse_roots(&values, &[]).unwrap() {
        RootsStep::Resolve(path) => assert_eq!(path, b"/x/b"),
        other => panic!("{other:?}"),
    }
    match parse_roots(&values, &[found("/x/b")]).unwrap() {
        RootsStep::Resolve(path) => assert_eq!(path, b"rel=ative"),
        other => panic!("{other:?}"),
    }
    let roots = done(parse_roots(&values, &[found("/x/b"), found("/x/a")]).unwrap());
    assert_eq!(
        roots,
        vec![("a".to_string(), b"/x/a".to_vec()), ("b".to_string(), b"/x/b".to_vec())]
    );
}

#[test]
fn every_faulty_root_is_named() {
    let error = parse_roots(&["plain".into()], &[]).unwrap_err();
    assert_eq!(error.message(), "root must use ID=PATH syntax: plain");
    let error = parse_roots(&["=/tmp".into()], &[]).unwrap_err();
    assert_eq!(
        error.message(),
        "root ID must contain only ASCII letters, digits, '_' or '-': "
    );
    let error = parse_roots(&["a=/x".into(), "a=/y".into()], &[found("/x")]).unwrap_err();
    assert_eq!(error.message(), "duplicate root ID: a");
    let error = parse_roots(&["a=/x".into()], &[Err("not found".into())]).unwrap_err();
    assert_eq!(error.message(), "cannot resolve root /x: not found");
}

#[test]
fn overlapping_roots_are_refused_by_component() {
    let values = vec!["a=1".to_string(), "b=2".to_string(), "c=3".to_string()];
    let error =
        parse_roots(&values, &[found("/w/lib-x"), found("/w/lib/deep"), found("/w/lib")]).unwrap_err();
    assert_eq!(error.message(), "roots overlap: /w/lib and /w/lib/deep");
    let error = parse_roots(&values, &[found("/w"), found("/x"), found("/w")]).unwrap_err();
    assert_eq!(error.message(), "roots overlap: /w and /w");
    let roots =
        done(parse_roots(&values, &[found("/w/lib-x"), found("/v"), found("/w/lib")]).unwrap());
    assert_eq!(
        roots.iter().map(|root| root.1.clone()).collect::<Vec<_>>(),
        vec![b"/v".to_vec(), b"/w/lib".to_vec(), b"/w/lib-x".to_vec()]
    );
}

#[test]
fn recursive_exclusions_are_single_names() {
    let names = parse_recursive_exclusions(&[
        "node_modules".into(),
        ".git".into(),
        "node_modules".into(),
    ])
    .unwrap();
    assert_eq!(names, vec![".git".to_string(), "node_modules".to_string()]);
    for name in ["", ".", "..", "a/b", "/"] {
        match parse_recursive_exclusions(&[".git".into(), name.into()]) {
            Err(ConfigError::InvalidRecursiveExclusion(bad)) => assert_eq!(bad, name),
            other => panic!("{name}: {other:?}"),
        }
    }
    let error = parse_recursive_exclusions(&["a/b".into()]).unwrap_err();
    assert_eq!(error.message(), "recursive exclusion must be one path component: a/b");
}

fn policy(version: u32, limits: Option<PolicyLimits>) -> Policy {
    Policy {
        schema_version: version,
        roots: vec![PolicyPair { id: "project".into(), path: "/projects/project".into() }],
        exclusions: vec![PolicyPair { id: "project".into(), path: "generated/cache".into() }],
        recursive_exclusions: vec![".git".into()],
        limits,
    }
}

#[test]
fn policies_go_through_the_checks_of_the_command_line() {
    let limits = PolicyLimits {
        max_files: Some(20_000),
        max_file_bytes: None,
        max_total_bytes: None,
        max_diff_bytes: Some(7),
    };
    let configured = check_policy(&policy(1, Some(limits))).unwrap();
    assert_eq!(configured.limits.max_files, 20_000);
    assert_eq!(configured.limits.max_file_bytes, 33_554_432);
    assert_eq!(configured.limits.max_total_bytes, 268_435_456);
    assert_eq!(configured.limits.max_diff_bytes, 7);
    assert_eq!(configured.recursive_exclusions, vec![".git".to_string()]);
    let roots = match check_roots(&configured.roots, &[found("/projects/project")]).unwrap() {
        RootsStep::Done(roots) => roots,
        other => panic!("{other:?}"),
    };
    let exclusions = check_exclusions(&configured.exclusions, &roots).unwrap();
    assert_eq!(exclusions, vec![exclusion("project", "generated/cache")]);
    assert_eq!(check_policy(&policy(1, None)).unwrap().limits.max_files, 10_000);
}

#[test]
fn an_equals_sign_in_a_policy_id_does_not_move_into_the_path() {
    let pairs = vec![Entry::Pair { id: "a=b".into(), path: "/x".into() }];
    match check_roots(&pairs, &[]) {
        Err(ConfigError::InvalidRootId(id)) => assert_eq!(id, "a=b"),
        other => panic!("{other:?}"),
    }
    match &entries(&["a=b=c".into()])[0] {
        Entry::Pair { id, path } => {
            assert_eq!(id, "a");
            assert_eq!(path, "b=c");
        }
        other => panic!("{other:?}"),
    }
}

#[test]
fn policies_of_another_version_or_size_are_refused() {
    let error = check_policy(&policy(2, None)).unwrap_err();
    assert_eq!(error.message(), "unsupported policy schemaVersion: 2");
    assert!(check_policy_size(16 * 1024 * 1024).is_ok());
    let error = check_policy_size(16 * 1024 * 1024 + 1).unwrap_err();
    assert_eq!(error.message(), "policy file exceeds 16 MiB");
}

#[test]
fn the_output_lies_outside_every_root() {
    let roots = vec![root("main", "/w/root")];
    let cwd = Some(b"/w".to_vec());
    let error = validate_output(b"out", true, &cwd, &None, &roots).unwrap_err();
    assert_eq!(error.message(), "output already exists: out");
    match validate_output(b"out", false, &cwd, &None, &roots).unwrap() {
        OutputStep::Resolve(path) => assert_eq!(path, b"/w"),
        other => panic!("{other:?}"),
    }
    let resolved = Some(found("/w"));
    assert!(matches!(
        validate_output(b"out", false, &cwd, &resolved, &roots),
        Ok(OutputStep::Accepted)
    ));
    let resolved = Some(found("/w/root/sub"));
    let error = validate_output(b"/link/out", false, &cwd, &resolved, &roots).unwrap_err();
    assert_eq!(error.message(), "output cannot be inside a tracked root: /w/root/sub/out");
    let failed = Some(Err("gone".to_string()));
    let error = validate_output(b"/missing/out", false, &cwd, &failed, &roots).unwrap_err();
    assert_eq!(error.message(), "cannot resolve root /missing: gone");
    let error = validate_output(b"/a//missing/out", false, &cwd, &failed, &roots).unwrap_err();
    assert_eq!(error.message(), "cannot resolve root /a//missing: gone");
    match validate_output(b"out", false, &None, &None, &roots).unwrap() {
        OutputStep::Resolve(path) => assert_eq!(path, b"/"),
        other => panic!("{other:?}"),
    }
    assert_eq!(ConfigError::MissingCommand.message(), "no command provided after --");
}

#[test]
fn limits_that_are_not_given_are_the_defaults() {
    let given = PolicyLimits {
        max_files: Some(3),
        max_file_bytes: None,
        max_total_bytes: Some(0),
        max_diff_bytes: None,
    };
    let limits = policy_limits(Some(given));
    assert_eq!(limits.max_files, 3);
    assert_eq!(limits.max_file_bytes, Limits::default().max_file_bytes);
    assert_eq!(limits.max_total_bytes, 0);
    assert_eq!(limits.max_diff_bytes, Limits::default().max_diff_bytes);
    assert_eq!(policy_limits(None).max_files, 10_000);
}
