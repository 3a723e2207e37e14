//! The floating pane's size from the plugin configuration.

use std::collections::BTreeMap;
use zellij_overview::{float_size_from_config, FloatSize};

fn config(pairs: &[(&str, &str)]) -> BTreeMap<String, String> {
    pairs
        .iter()
        .map(|(key, value)| ((*key).to_owned(), (*value).to_owned()))
        .collect()
}

#[test]
fn defaults_to_a_large_centered_pane() {
    assert_eq!(
        float_size_from_config(&BTreeMap::new()),
        FloatSize::default()
    );
}

#[test]
fn reads_launch_plugin_size_keys() {
    assert_eq!(
        float_size_from_config(&config(&[
            ("x", "3%"),
            ("y", "3%"),
            ("width", "94%"),
            ("height", "94%"),
        ])),
        FloatSize::default()
    );
}

#[test]
fn invalid_values_keep_the_default() {
    assert_eq!(
        float_size_from_config(&config(&[("width", "0%"), ("x", "-1")])),
        FloatSize::default()
    );
}
