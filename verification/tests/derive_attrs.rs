use markhor::derive_attrs::{
    check_provide_args, check_require_args, check_resolve_args, find_hygiene_prefix, ProvideArg,
    ProvideSettings, RequireArg, RequireSettings,
};

fn err(r: Result<ProvideSettings, String>) -> String {
    match r {
        Ok(s) => panic!("expected an error, got {:?}", s),
        Err(m) => m,
    }
}

#[test]
fn provide_args_from_different_groups_combine() {
    let args = vec![
        ProvideArg::Each,
        ProvideArg::Filter,
        ProvideArg::MapWith { typed_closure: true },
        ProvideArg::SortBy,
    ];
    assert_eq!(
        check_provide_args(&args),
        Ok(ProvideSettings { each: true, filter: true, map: true, key: false, sort_by: true })
    );
}

#[test]
fn provide_without_args_asks_for_nothing() {
    assert_eq!(
        check_provide_args(&vec![]),
        Ok(ProvideSettings { each: false, filter: false, map: false, key: false, sort_by: false })
    );
}

#[test]
fn key_alone_is_accepted() {
    let args = vec![ProvideArg::Key, ProvideArg::Each];
    assert_eq!(
        check_resolve_args(&args),
        Ok(ProvideSettings { each: true, filter: false, map: false, key: true, sort_by: false })
    );
}

#[test]
fn two_filtering_keys_are_refused() {
    let args = vec![ProvideArg::Filter, ProvideArg::FilterMap { typed_closure: true }];
    assert_eq!(
        err(check_provide_args(&args)),
        "Filtering attributes (filter, filter_map) are mutually exclusive."
    );
}

#[test]
fn a_repeated_key_counts_twice() {
    let args = vec![ProvideArg::Filter, ProvideArg::Each, ProvideArg::Filter];
    assert_eq!(
        err(check_provide_args(&args)),
        "Filtering attributes (filter, filter) are mutually exclusive."
    );
}

#[test]
fn two_mapping_keys_are_refused() {
    let args = vec![ProvideArg::MapWith { typed_closure: true }, ProvideArg::Key];
    assert_eq!(
        err(check_resolve_args(&args)),
        "Mapping attributes (map, key) are mutually exclusive."
    );
}

#[test]
fn filter_map_conflicts_with_map() {
    let args = vec![
        ProvideArg::FilterMap { typed_closure: true },
        ProvideArg::MapWith { typed_closure: true },
    ];
    assert_eq!(
        err(check_provide_args(&args)),
        "Mapping attributes (filter_map, map) are mutually exclusive."
    );
}

#[test]
fn three_sorting_keys_are_listed_in_order() {
    let args = vec![ProvideArg::SortByField, ProvideArg::SortBy, ProvideArg::SortByKey];
    assert_eq!(
        err(check_provide_args(&args)),
        "Sorting attributes (sort_by_field, sort_by, sort_by_key) are mutually exclusive."
    );
}

#[test]
fn groups_are_checked_before_unimplemented_keys() {
    let args = vec![ProvideArg::SortByKey, ProvideArg::Filter, ProvideArg::Filter];
    assert_eq!(
        err(check_provide_args(&args)),
        "Filtering attributes (filter, filter) are mutually exclusive."
    );
}

#[test]
fn unimplemented_keys_are_refused() {
    assert_eq!(
        err(check_provide_args(&vec![ProvideArg::FilterMap { typed_closure: true }])),
        "The `filter_map` attribute is not yet implemented."
    );
    assert_eq!(
        err(check_provide_args(&vec![ProvideArg::SortByKey])),
        "The `sort_by_key` attribute is not yet implemented."
    );
    assert_eq!(
        err(check_resolve_args(&vec![ProvideArg::SortByField, ProvideArg::Each])),
        "The `sort_by_field` attribute is not yet implemented."
    );
    assert_eq!(
        err(check_provide_args(&vec![ProvideArg::SortByField, ProvideArg::FilterMap { typed_closure: true }])),
        "The `filter_map` attribute is not yet implemented."
    );
}

#[test]
fn unknown_key_is_refused_with_the_attribute_name() {
    let args = vec![ProvideArg::Each, ProvideArg::Unknown("flatten".to_string())];
    assert_eq!(err(check_provide_args(&args)), "unsupported provide attribute");
    assert_eq!(err(check_resolve_args(&args)), "unsupported resolve attribute");
}

#[test]
fn map_needs_a_typed_closure() {
    let args = vec![ProvideArg::MapWith { typed_closure: false }];
    assert_eq!(
        err(check_provide_args(&args)),
        "This attribute requires a closure with an explicitly typed argument. \nExample: `#[provide(map = |x: SourceType| ...)]`"
    );
    let args = vec![ProvideArg::FilterMap { typed_closure: false }];
    assert_eq!(
        err(check_resolve_args(&args)),
        "This attribute requires a closure with an explicitly typed argument. \nExample: `#[resolve(map = |x: SourceType| ...)]`"
    );
}

#[test]
fn the_first_unreadable_argument_decides() {
    let args = vec![
        ProvideArg::Unknown("x".to_string()),
        ProvideArg::MapWith { typed_closure: false },
    ];
    assert_eq!(err(check_provide_args(&args)), "unsupported provide attribute");
    let args = vec![
        ProvideArg::MapWith { typed_closure: false },
        ProvideArg::Unknown("x".to_string()),
    ];
    assert!(err(check_provide_args(&args)).starts_with("This attribute requires"));
    // Reading errors come before the group rules.
    let args = vec![ProvideArg::Filter, ProvideArg::Filter, ProvideArg::Unknown("x".to_string())];
    assert_eq!(err(check_provide_args(&args)), "unsupported provide attribute");
}

#[test]
fn require_args() {
    assert_eq!(
        check_require_args(&vec![RequireArg::Filter, RequireArg::Each]),
        Ok(RequireSettings { filter: true, each: true })
    );
    assert_eq!(check_require_args(&vec![]), Ok(RequireSettings { filter: false, each: false }));
    assert_eq!(
        check_require_args(&vec![RequireArg::Each, RequireArg::Unknown("map".to_string())]),
        Err("unsupported require attribute".to_string())
    );
}

#[test]
fn hygiene_prefix_avoids_generic_names() {
    assert_eq!(find_hygiene_prefix(&vec![]), "___");
    assert_eq!(find_hygiene_prefix(&vec!["T".to_string(), "__".to_string()]), "___");
    assert_eq!(find_hygiene_prefix(&vec!["T".to_string(), "___X".to_string()]), "____");
    assert_eq!(
        find_hygiene_prefix(&vec!["_____".to_string(), "a".to_string(), "___".to_string()]),
        "______"
    );
}
