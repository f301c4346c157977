use rsmdl::filters::api::{filter_type_of, parse_filter_type, FilterError, FilterType, Filters};

fn names(filters: &Filters<(f64, f64), f64>) -> Vec<String> {
    filters.time_filters().iter().map(|f| f.name.clone()).collect()
}

#[test]
fn new_filters_are_empty_and_include() {
    let filters: Filters<(f64, f64), f64> = Filters::new(0.);
    assert!(filters.is_include());
    assert!(filters.time_filters().is_empty());
    assert!(filters.sample_log_filters().is_empty());
    assert_eq!(*filters.amplitudes(), 0.);
}

#[test]
fn set_time_type_switches() {
    let mut filters: Filters<(f64, f64), f64> = Filters::new(0.);
    assert_eq!(filters.set_time_type("EXCLUDE".to_string()), Ok(()));
    assert!(!filters.is_include());
    assert_eq!(filters.set_time_type("Include".to_string()), Ok(()));
    assert!(filters.is_include());
}

#[test]
fn set_time_type_refuses_unknown_names() {
    let mut filters: Filters<(f64, f64), f64> = Filters::new(0.);
    filters.set_time_type("exclude".to_string()).unwrap();
    assert_eq!(filters.set_time_type("inclusive".to_string()), Err(FilterError::UnknownTimeType));
    assert_eq!(filters.set_time_type("".to_string()), Err(FilterError::UnknownTimeType));
    assert!(!filters.is_include());
}

#[test]
fn type_names() {
    assert!(filter_type_of(&"include".to_string()) == Some(FilterType::Include));
    assert!(filter_type_of(&"exclude".to_string()) == Some(FilterType::Exclude));
    // filter_type_of takes a name already in lower case
    assert!(filter_type_of(&"Include".to_string()).is_none());
    assert!(parse_filter_type(&"ExClUdE".to_string()) == Some(FilterType::Exclude));
    assert!(parse_filter_type(&"INCLUDE".to_string()) == Some(FilterType::Include));
    assert!(parse_filter_type(&"other".to_string()).is_none());
}

#[test]
fn time_filter_names_are_unique() {
    let mut filters = Filters::new(0.);
    assert_eq!(filters.add_time_filter("a".to_string(), (0., 1.)), Ok(()));
    assert_eq!(filters.add_time_filter("b".to_string(), (1., 2.)), Ok(()));
    assert_eq!(filters.add_time_filter("a".to_string(), (5., 6.)), Err(FilterError::NameExists));
    assert_eq!(names(&filters), vec!["a", "b"]);
    assert_eq!(filters.time_filters()[0].bounds, (0., 1.));
}

#[test]
fn remove_time_filter_swaps_in_the_last() {
    let mut filters = Filters::new(0.);
    for n in ["a", "b", "c"] {
        filters.add_time_filter(n.to_string(), (0., 1.)).unwrap();
    }
    assert_eq!(filters.remove_time_filter(&"a".to_string()), Ok(()));
    assert_eq!(names(&filters), vec!["c", "b"]);
    assert_eq!(filters.remove_time_filter(&"a".to_string()), Err(FilterError::NoSuchTimeFilter));
}

#[test]
fn log_filters_are_added_without_a_name_check() {
    let mut filters = Filters::new(0.);
    assert_eq!(filters.add_log_filter("x".to_string(), (0., 1.)), Ok(()));
    assert_eq!(filters.add_log_filter("x".to_string(), (2., 3.)), Ok(()));
    assert_eq!(filters.sample_log_filters().len(), 2);
}

#[test]
fn remove_log_filter_looks_among_the_time_filters() {
    let mut filters = Filters::new(0.);
    filters.add_log_filter("x".to_string(), (0., 1.)).unwrap();
    assert_eq!(filters.remove_log_filter(&"x".to_string()), Err(FilterError::NoSuchLogFilter));
    filters.add_time_filter("t".to_string(), (0., 1.)).unwrap();
    assert_eq!(filters.remove_log_filter(&"t".to_string()), Ok(()));
    assert!(filters.time_filters().is_empty());
    assert_eq!(filters.sample_log_filters().len(), 1);
}

#[test]
fn set_amp_stores_the_amplitude() {
    let mut filters: Filters<(f64, f64), f64> = Filters::new(0.);
    assert_eq!(filters.set_amp(2.5), Ok(()));
    assert_eq!(*filters.amplitudes(), 2.5);
}
