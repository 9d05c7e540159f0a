use th420_display::sensors::{
    find_zenergy_socket, parse_proc_stat, parse_ram_used_pct, proc_stat_fields, read_millidegree,
    sum_frequencies, GpuFiles, HwmonEntry, NvmlValues, Observation, Reading, SensorReader,
    SensorValues,
};
use th420_display::single::Single;
use th420_display::table::Table;
use th420_display::text::read_u64;

#[test]
fn parses_proc_stat_and_counts_iowait_as_idle() {
    let (idle, total) =
        parse_proc_stat("cpu  100 20 30 400 50 10 20 0 0 0\n").expect("valid proc stat");
    assert_eq!(idle, 450);
    assert_eq!(total, 630);
}

#[test]
fn rejects_malformed_proc_stat() {
    assert!(parse_proc_stat("cpu  1 2 3\n").is_none());
    assert!(parse_proc_stat("intr 1 2 3\n").is_none());
}

#[test]
fn proc_stat_fields_are_read_in_order() {
    assert_eq!(proc_stat_fields("cpu 1 2 3 4 5 6 7\nx"), Some([1, 2, 3, 4, 5, 6, 7]));
    assert_eq!(proc_stat_fields("cpu0 1 2 3 4 5 6 7"), None);
    assert_eq!(proc_stat_fields("cpu 1 2 3 -4 5 6 7"), None);
    assert_eq!(proc_stat_fields("cpu +1 2 3 4 5 6 7"), Some([1, 2, 3, 4, 5, 6, 7]));
    assert_eq!(proc_stat_fields(""), None);
}

#[test]
fn parses_ram_used_percentage_and_handles_missing_total() {
    let reading = parse_ram_used_pct("MemTotal:       1000 kB\nMemAvailable:    250 kB\n")
        .expect("valid meminfo");
    let pct = f32::from_bits(reading.to_single().expect("a share").bits);
    assert!((pct - 75.0).abs() < f32::EPSILON);
    assert!(parse_ram_used_pct("MemAvailable: 250 kB\n").is_none());
}

#[test]
fn memory_lines_are_checked() {
    assert_eq!(
        parse_ram_used_pct("MemTotal: 10 kB\nMemAvailable: 30 kB"),
        Some(Reading::Share { part: 0, whole: 10 })
    );
    assert_eq!(parse_ram_used_pct("MemTotal: ten kB\n"), None);
    assert_eq!(parse_ram_used_pct("MemTotal: 10\nMemAvailable:\n"), None);
    assert_eq!(parse_ram_used_pct("MemTotal: 0 kB\n"), None);
}

#[test]
fn numbers_are_read_from_files() {
    assert_eq!(read_u64("42500\n"), Some(42_500));
    assert_eq!(read_millidegree(42_500), 42);
    assert_eq!(read_u64("not-a-number"), None);
    assert_eq!(read_u64("18446744073709551615"), Some(u64::MAX));
    assert_eq!(read_u64("18446744073709551616"), None);
    assert_eq!(read_u64(""), None);
    // A reading that does not fit wraps around like a signed number.
    assert_eq!(read_millidegree(u64::MAX), 0);
    assert_eq!(read_millidegree(u64::MAX - 4999), -5);
    assert_eq!(read_millidegree(3_000_000_000_000), (3_000_000_000i64) as i32);
}

#[test]
fn frequencies_are_summed() {
    let contents: Vec<String> =
        ["4000000\n", "x", "2000000"].iter().map(|s| s.to_string()).collect();
    assert_eq!(sum_frequencies(&contents), (6_000_000, 2));
    assert_eq!(sum_frequencies(&[]), (0, 0));
}

fn entry(file_name: &str, name: &str) -> HwmonEntry {
    let path = format!("/sys/class/hwmon/{file_name}");
    HwmonEntry {
        file_name: file_name.to_string(),
        name: name.to_string(),
        temp1: Some(format!("{path}/temp1_input")),
        temp2: None,
        power1: None,
        device: None,
        energy_labels: vec![],
        path,
    }
}

fn igpu() -> HwmonEntry {
    let mut e = entry("hwmon3", "amdgpu\n");
    e.power1 = Some("igpu-power".to_string());
    e.device = Some(GpuFiles {
        busy: Some("igpu-busy".to_string()),
        vram_used: Some("igpu-used".to_string()),
        vram_total: Some("igpu-total".to_string()),
    });
    e
}

fn observation(files: &[(&str, &str)]) -> Observation {
    let mut table = Table::new();
    for (path, content) in files {
        table.insert(path, content.to_string());
    }
    Observation {
        files: table,
        stat: None,
        frequency_total: 0,
        frequency_count: 0,
        elapsed_ns: 0,
        nvml: None,
        meminfo: None,
    }
}

#[test]
fn drives_are_numbered_in_the_order_of_their_names() {
    let entries = vec![entry("hwmon2", "nvme"), entry("hwmon10", "nvme"), entry("hwmon1", "spd5118")];
    let mut reader = SensorReader::new(&entries, false);
    let values = reader.read(&observation(&[
        ("/sys/class/hwmon/hwmon10/temp1_input", "10000"),
        ("/sys/class/hwmon/hwmon2/temp1_input", "20000"),
        ("/sys/class/hwmon/hwmon1/temp1_input", "30999"),
    ]));
    assert_eq!(values.readings.get("nvme0_temp"), Some(&Reading::Degrees(10)));
    assert_eq!(values.readings.get("nvme1_temp"), Some(&Reading::Degrees(20)));
    assert_eq!(values.readings.get("dimm0_temp"), Some(&Reading::Degrees(30)));
    assert_eq!(values.readings.get("nvme2_temp"), None);
}

#[test]
fn integrated_graphics_stand_in_for_discrete_ones() {
    let files = [
        ("/sys/class/hwmon/hwmon3/temp1_input", "55000"),
        ("igpu-busy", "7"),
        ("igpu-power", "15000000"),
        ("igpu-used", "1"),
        ("igpu-total", "4"),
    ];
    let mut alone = SensorReader::new(&[igpu()], false);
    let values = alone.read(&observation(&files));
    for (own, primary) in [
        ("igpu_temp", "gpu_temp"),
        ("igpu_util", "gpu_util"),
        ("igpu_power", "gpu_power"),
        ("igpu_vram_pct", "gpu_vram_pct"),
    ] {
        assert!(values.readings.get(own).is_some());
        assert_eq!(values.readings.get(own), values.readings.get(primary));
    }
    assert_eq!(
        values.readings.get("gpu_vram_pct"),
        Some(&Reading::Share { part: 1, whole: 4 })
    );

    let mut beside = SensorReader::new(&[igpu()], true);
    let values = beside.read(&observation(&files));
    assert_eq!(values.readings.get("igpu_power"), Some(&Reading::Micro(15_000_000)));
    assert_eq!(values.readings.get("gpu_power"), None);
    assert_eq!(values.readings.get("gpu_temp"), None);
}

#[test]
fn nvidia_values_come_from_the_library() {
    let mut nvidia = entry("hwmon5", "nvidia");
    nvidia.temp2 = Some("hot".to_string());
    nvidia.power1 = Some("draw".to_string());
    let mut reader = SensorReader::new(&[nvidia], true);
    let mut o = observation(&[("hot", "81000"), ("draw", "1000000")]);
    o.nvml = Some(NvmlValues {
        temperature: Some(60),
        hotspot: Some(70),
        utilization: Some(99),
        memory_used: Some(1),
        memory_total: Some(0),
        power_mw: Some(250_000),
    });
    let values = reader.read(&o);
    assert_eq!(values.readings.get("gpu_temp"), Some(&Reading::Count(60)));
    // The driver's own files are read last.
    assert_eq!(values.readings.get("gpu_hotspot_temp"), Some(&Reading::Degrees(81)));
    assert_eq!(values.readings.get("gpu_power"), Some(&Reading::Micro(1_000_000)));
    assert_eq!(values.readings.get("gpu_util"), Some(&Reading::Count(99)));
    assert_eq!(values.readings.get("gpu_vram_pct"), None);
    o.files = Table::new();
    let values = reader.read(&o);
    assert_eq!(values.readings.get("gpu_hotspot_temp"), Some(&Reading::Degrees(70)));
    assert_eq!(values.readings.get("gpu_power"), Some(&Reading::Milli(250_000)));
}

#[test]
fn utilization_is_the_busy_share_of_the_time() {
    let mut reader = SensorReader::new(&[], false);
    reader.prime(Some((100, 200)), None);
    let mut o = observation(&[]);
    o.stat = Some((150, 400));
    let util = |v: &Table<Reading>| v.get("cpu_util").copied();
    assert_eq!(util(&reader.read(&o).readings), Some(Reading::Count(75)));
    // No time has passed.
    assert_eq!(util(&reader.read(&o).readings), Some(Reading::Count(0)));
    // The counters went backwards.
    o.stat = Some((0, 0));
    assert_eq!(util(&reader.read(&o).readings), Some(Reading::Count(0)));
    o.stat = Some((0, u64::MAX));
    assert_eq!(util(&reader.read(&o).readings), Some(Reading::Count(1)));
}

#[test]
fn power_is_the_energy_over_time() {
    let mut zen = entry("hwmon9", " zenergy\n");
    zen.energy_labels = vec!["Ecore".to_string(), " Esocket0\n".to_string()];
    let entries = vec![entry("hwmon0", "k10temp"), zen];
    let counter = "/sys/class/hwmon/hwmon9/energy2_input";
    assert_eq!(find_zenergy_socket(&entries).as_deref(), Some(counter));
    assert_eq!(find_zenergy_socket(&entries[..1]), None);
    let mut reader = SensorReader::new(&entries, false);
    assert_eq!(reader.energy_file(), counter);
    assert_eq!(
        SensorReader::new(&[], false).energy_file(),
        "/sys/class/hwmon/hwmon8/energy9_input"
    );
    assert!(reader.wanted_files().contains(&counter.to_string()));
    reader.prime(None, Some(1_000));
    let mut o = observation(&[(counter, "5000")]);
    o.elapsed_ns = 50_000_000;
    assert_eq!(reader.read(&o).readings.get("cpu_power"), None);
    o = observation(&[(counter, "4999")]);
    o.elapsed_ns = 50_000_001;
    // The counter wrapped around.
    assert_eq!(
        reader.read(&o).readings.get("cpu_power"),
        Some(&Reading::Power { energy: u64::MAX, elapsed_ns: 50_000_001 })
    );
}

#[test]
fn processor_values_are_always_there() {
    let mut reader = SensorReader::new(&[], false);
    let mut o = observation(&[]);
    o.frequency_total = 8_000_000;
    o.frequency_count = 2;
    o.meminfo = Some("MemTotal: 4 kB\nMemAvailable: 1 kB\n".to_string());
    let mut values = reader.read(&o);
    assert_eq!(
        values.readings.get("cpu_freq"),
        Some(&Reading::Frequency { total: 8_000_000, count: 2 })
    );
    assert!(values.readings.get("cpu_util").is_some());
    assert_eq!(
        values.readings.get("ram_used_pct"),
        Some(&Reading::Share { part: 3, whole: 4 })
    );
    values.set_coolant(Some(31));
    assert_eq!(values.readings.get("coolant"), Some(&Reading::Degrees(31)));
    values.set_coolant(None);
    assert_eq!(values.readings.get("coolant"), Some(&Reading::Degrees(0)));
}

#[test]
fn readings_have_values() {
    let value = |r: Reading| r.to_single().map(|x| f32::from_bits(x.bits));
    assert_eq!(value(Reading::Degrees(-7)), Some(-7.0));
    assert_eq!(value(Reading::Degrees(i32::MIN)), Some(-2147483648.0));
    assert_eq!(value(Reading::Count(60)), Some(60.0));
    assert_eq!(value(Reading::Count(u64::MAX)), Some(u64::MAX as f32));
    assert_eq!(value(Reading::Micro(15_250_000)), Some(15.25));
    assert_eq!(value(Reading::Milli(250_001)), Some(250_001.0 / 1000.0));
    let share = Reading::Share { part: 1_234_567_891, whole: 3_000_000_007 };
    assert_eq!(value(share), Some(1_234_567_891_u64 as f32 / 3_000_000_007_u64 as f32 * 100.0));
    let clock = Reading::Frequency { total: 8_400_001, count: 2 };
    assert_eq!(value(clock), Some(8_400_001_u64 as f32 / 2.0 / 1_000_000.0));
    assert_eq!(value(Reading::Frequency { total: 5, count: 0 }), Some(0.0));
    assert_eq!(value(Reading::Power { energy: 1, elapsed_ns: 1 }), None);
}

#[test]
fn values_are_those_of_the_readings() {
    let mut readings = Table::new();
    readings.insert("cpu_temp", Reading::Degrees(41));
    readings.insert("cpu_power", Reading::Power { energy: 3, elapsed_ns: 2 });
    let values = SensorValues { readings }.values(Single { bits: 65.5_f32.to_bits() });
    let value = |id: &str| values.get(id).map(|x| f32::from_bits(x.bits));
    assert_eq!(value("cpu_temp"), Some(41.0));
    assert_eq!(value("cpu_power"), Some(65.5));
    assert_eq!(value("gpu_temp"), None);
}
