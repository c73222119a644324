use temp_checker::sample::Sample;
use temp_checker::sensors::{
    build_sample, collect_cores, core_reading_of, gpu_reading, handle_temps, order_cores, Chip,
    Feature, Input, SensorData,
};

fn input(name: &str, number: Option<&str>) -> Input {
    Input { name: name.to_string(), number: number.map(|t| t.to_string()) }
}

fn feature(name: &str, inputs: Vec<Input>) -> Feature {
    Feature { name: name.to_string(), inputs }
}

fn chip(name: &str, features: Vec<Feature>) -> Chip {
    Chip { name: name.to_string(), features }
}

fn entries(s: &Sample) -> Vec<(String, i64)> {
    let mut out = Vec::new();
    for i in 0..s.len() {
        out.push(s.reading(i));
    }
    out
}

fn full_report() -> SensorData {
    SensorData {
        chips: vec![
            chip(
                "coretemp-isa-0000",
                vec![
                    feature("Adapter", vec![]),
                    feature("Package id 0", vec![input("temp1_input", Some("48.0")), input("temp1_max", Some("100.0"))]),
                    feature("Core 1", vec![input("temp3_input", Some("47.0"))]),
                    feature("Core 0", vec![input("temp2_input", Some("46.5"))]),
                ],
            ),
            chip("acpitz-acpi-0", vec![feature("temp1", vec![input("temp1_input", Some("27.8"))])]),
        ],
    }
}

#[test]
fn cpu_package_reading() {
    let d = SensorData {
        chips: vec![chip(
            "coretemp-isa-0000",
            vec![feature("Package id 0", vec![input("temp1_input", Some("45.0"))])],
        )],
    };
    let s = handle_temps(&d);
    assert_eq!(entries(&s), vec![("CPU".to_string(), 45000)]);
}

#[test]
fn missing_acpi_path_gives_no_entry() {
    let d = SensorData {
        chips: vec![chip(
            "coretemp-isa-0000",
            vec![feature("Package id 0", vec![input("temp1_input", Some("51.5"))])],
        )],
    };
    let s = handle_temps(&d);
    assert_eq!(s.get("ACPI"), None);
    assert_eq!(s.len(), 1);
}

#[test]
fn core_index_reads_channel_plus_two() {
    let d = SensorData {
        chips: vec![chip(
            "coretemp-isa-0000",
            vec![feature("Core 3", vec![input("temp4_input", Some("99.0")), input("temp5_input", Some("42.0"))])],
        )],
    };
    let s = handle_temps(&d);
    assert_eq!(entries(&s), vec![("Core#3".to_string(), 42000)]);
}

#[test]
fn unparseable_gpu_text_gives_zero() {
    let d = SensorData { chips: vec![] };
    let s = build_sample(&d, "N/A\n");
    assert_eq!(entries(&s), vec![("GPU".to_string(), 0)]);
}

#[test]
fn gpu_text_is_trimmed_and_read() {
    assert_eq!(gpu_reading(" 61\n"), 61000);
    assert_eq!(gpu_reading("61.5"), 61500);
    assert_eq!(gpu_reading(""), 0);
    assert_eq!(gpu_reading("5e1\n"), 50000);
}

#[test]
fn sample_order_cpu_acpi_cores_gpu() {
    let s = build_sample(&full_report(), "55\n");
    assert_eq!(
        entries(&s),
        vec![
            ("CPU".to_string(), 48000),
            ("ACPI".to_string(), 27800),
            ("Core#0".to_string(), 46500),
            ("Core#1".to_string(), 47000),
            ("GPU".to_string(), 55000),
        ]
    );
}

#[test]
fn missing_or_non_numeric_fields_are_skipped() {
    let d = SensorData {
        chips: vec![
            chip(
                "coretemp-isa-0000",
                vec![
                    feature("Package id 0", vec![input("temp1_input", None)]),
                    feature("Core x", vec![input("temp2_input", Some("40.0"))]),
                    feature("Core", vec![input("temp2_input", Some("40.0"))]),
                    feature("Core 2", vec![input("temp3_input", Some("40.0"))]),
                    feature("Fan 0", vec![input("temp2_input", Some("40.0"))]),
                ],
            ),
            chip("acpitz-acpi-0", vec![feature("temp1", vec![input("temp1_input", Some("NaN"))])]),
        ],
    };
    let s = handle_temps(&d);
    assert_eq!(s.len(), 0);
}

#[test]
fn repeated_core_index_keeps_last_reading() {
    let fs = vec![
        feature("Core 3", vec![input("temp5_input", Some("40.0"))]),
        feature("Core 1", vec![input("temp3_input", Some("41.0"))]),
        feature("Core  03", vec![input("temp5_input", Some("43.0"))]),
    ];
    let rs = collect_cores(&fs);
    assert_eq!(rs, vec![(3, 40000), (1, 41000), (3, 43000)]);
    assert_eq!(order_cores(&rs), vec![(1, 41000), (3, 43000)]);
}

#[test]
fn exponent_form_sensor_value_is_read() {
    let d = SensorData {
        chips: vec![chip("acpitz-acpi-0", vec![feature("temp1", vec![input("temp1_input", Some("2.78e1"))])])],
    };
    let s = handle_temps(&d);
    assert_eq!(entries(&s), vec![("ACPI".to_string(), 27800)]);
}

#[test]
fn negative_core_index() {
    let f = feature("Core -1", vec![input("temp1_input", Some("30.25"))]);
    assert_eq!(core_reading_of(&f), Some((-1, 30250)));
}

#[test]
fn sample_insert_keeps_place() {
    let mut s = Sample::new();
    s.insert("A".to_string(), 1);
    s.insert("B".to_string(), 2);
    s.insert("A".to_string(), 3);
    assert_eq!(entries(&s), vec![("A".to_string(), 3), ("B".to_string(), 2)]);
    assert_eq!(s.get("B"), Some(2));
    assert!(!s.is_empty());
}
