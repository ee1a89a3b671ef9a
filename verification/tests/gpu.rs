use ai4all::gpu::{
    build_ollama_env, detect, detect_gfx_version, detect_nvidia, parse_rocm_csv,
    rocm_device_indices, rocm_driver_version, rocm_product_name, GpuBackend, GpuDevice, GpuError,
    GpuInfo, GpuVendor, SystemProbe,
};

fn amd_device(name: &str) -> GpuDevice {
    GpuDevice {
        vendor: GpuVendor::Amd,
        index: 0,
        name: name.to_string(),
        vram_mib: 24576,
        vram_free_mib: 24000,
        utilization_pct: None,
        driver_version: "6.1".to_string(),
        compute_capability: None,
    }
}

fn nvidia_device(index: u32, capability: Option<&str>) -> GpuDevice {
    GpuDevice {
        vendor: GpuVendor::Nvidia,
        index,
        name: "RTX 4090".to_string(),
        vram_mib: 24576,
        vram_free_mib: 20000,
        utilization_pct: Some(0),
        driver_version: "545.0".to_string(),
        compute_capability: capability.map(|c| c.to_string()),
    }
}

fn pair(name: &str, value: &str) -> (String, String) {
    (name.to_string(), value.to_string())
}

fn empty_probe() -> SystemProbe {
    SystemProbe {
        nvidia_smi: None,
        rocm_smi: None,
        rocm_driver: None,
        rocm_products: vec![],
        drm_cards: vec![],
    }
}

const ROCM_TABLE: &str = "device,VRAM Total Memory (B),VRAM Total Used Memory (B),GPU use (%)\n\
                          card0,17179869184,2147483648,15\n";

#[test]
fn gpu_info_can_fit_model() {
    let info = GpuInfo {
        devices: vec![GpuDevice {
            vendor: GpuVendor::Nvidia,
            index: 0,
            name: "RTX 4090".to_string(),
            vram_mib: 24576,
            vram_free_mib: 20000,
            utilization_pct: Some(0),
            driver_version: "545.0".to_string(),
            compute_capability: Some("8.9".to_string()),
        }],
        backend: GpuBackend::Cuda,
        ollama_env: vec![],
    };
    assert!(info.can_fit_model(16000));
    assert!(!info.can_fit_model(24000));
}

#[test]
fn rocm_csv_parse_basic() {
    let csv = "device,VRAM Total Memory (B),VRAM Total Used Memory (B),GPU use (%)\n\
               card0,17179869184,2147483648,15\n";
    let devices = parse_rocm_csv(csv, None, &vec![]).unwrap();
    assert_eq!(devices.len(), 1);
    assert_eq!(devices[0].vram_mib, 16384);
    assert_eq!(devices[0].vram_free_mib, 14336);
}

#[test]
fn gfx_version_fallback() {
    let devices = vec![GpuDevice {
        vendor: GpuVendor::Amd,
        index: 0,
        name: "AMD Radeon RX 7900 XTX".to_string(),
        vram_mib: 24576,
        vram_free_mib: 24000,
        utilization_pct: None,
        driver_version: "6.1".to_string(),
        compute_capability: None,
    }];
    assert_eq!(detect_gfx_version(&devices, &vec![]), "11.0.0");
}

#[test]
fn can_fit_model_looks_at_single_devices() {
    let mut a = nvidia_device(0, None);
    a.vram_free_mib = 9000;
    let mut b = nvidia_device(1, None);
    b.vram_free_mib = 10000;
    let info = GpuInfo { devices: vec![a, b], backend: GpuBackend::Cuda, ollama_env: vec![] };
    assert!(info.can_fit_model(10000));
    assert!(!info.can_fit_model(10001));
    assert!(info.can_fit_model(0));
    let none = GpuInfo { devices: vec![], backend: GpuBackend::CpuOnly, ollama_env: vec![] };
    assert!(!none.can_fit_model(0));
}

#[test]
fn total_vram_adds_all_devices() {
    let mut a = nvidia_device(0, None);
    a.vram_mib = 24576;
    let mut b = amd_device("x");
    b.vram_mib = 16384;
    let info = GpuInfo { devices: vec![a, b], backend: GpuBackend::Mixed, ollama_env: vec![] };
    assert_eq!(info.total_vram_mib(), 40960);
    assert_eq!(info.checked_total_vram_mib(), Some(40960));
    let none = GpuInfo { devices: vec![], backend: GpuBackend::CpuOnly, ollama_env: vec![] };
    assert_eq!(none.total_vram_mib(), 0);
    assert_eq!(none.checked_total_vram_mib(), Some(0));
}

#[test]
fn total_vram_that_does_not_fit_is_not_given() {
    let mut a = nvidia_device(0, None);
    a.vram_mib = u64::MAX - 1;
    let mut b = nvidia_device(1, None);
    b.vram_mib = 1;
    let mut c = nvidia_device(2, None);
    c.vram_mib = 0;
    let mut info =
        GpuInfo { devices: vec![a, b, c], backend: GpuBackend::Cuda, ollama_env: vec![] };
    assert_eq!(info.checked_total_vram_mib(), Some(u64::MAX));
    info.devices[2].vram_mib = 1;
    assert_eq!(info.checked_total_vram_mib(), None);
}

#[test]
fn gpu_is_available_unless_cpu_only() {
    let mut info = GpuInfo { devices: vec![], backend: GpuBackend::CpuOnly, ollama_env: vec![] };
    assert!(!info.is_gpu_available());
    info.backend = GpuBackend::Cuda;
    assert!(info.is_gpu_available());
    info.backend = GpuBackend::Rocm;
    assert!(info.is_gpu_available());
    info.backend = GpuBackend::Mixed;
    assert!(info.is_gpu_available());
}

#[test]
fn rocm_row_gets_made_up_name_and_unknown_driver() {
    let devices = parse_rocm_csv(ROCM_TABLE, None, &vec![]).unwrap();
    assert_eq!(devices[0].vendor, GpuVendor::Amd);
    assert_eq!(devices[0].index, 0);
    assert_eq!(devices[0].name, "AMD GPU 0");
    assert_eq!(devices[0].driver_version, "unknown");
    assert_eq!(devices[0].utilization_pct, Some(15));
    assert_eq!(devices[0].compute_capability, None);
}

#[test]
fn rocm_row_takes_name_and_driver_from_reports() {
    let products = vec![
        (1, "Card series: Other\n".to_string()),
        (0, "Card series:   Radeon RX 7900 XTX  \n".to_string()),
        (0, "Card series: Second report\n".to_string()),
    ];
    let devices =
        parse_rocm_csv(ROCM_TABLE, Some("junk\nDriver Version: 6.1.3\n"), &products).unwrap();
    assert_eq!(devices[0].name, "Radeon RX 7900 XTX");
    assert_eq!(devices[0].driver_version, "6.1.3");
}

#[test]
fn rocm_table_with_remarks_and_unreadable_fields() {
    let csv = "Device , VRAM Total Memory (B) , VRAM Total Used Memory (B) , GPU use (%)\r\n\
               # a remark, with, commas\r\n\
               card1,1048576,2097152,50%\r\n\
               xyz,abc,1048575,2\n\
               cardcard7, 3145728\n";
    let devices = parse_rocm_csv(csv, None, &vec![]).unwrap();
    assert_eq!(devices.len(), 3);
    assert_eq!(devices[0].index, 1);
    assert_eq!(devices[0].vram_mib, 1);
    assert_eq!(devices[0].vram_free_mib, 0);
    assert_eq!(devices[0].utilization_pct, Some(50));
    assert_eq!(devices[0].name, "AMD GPU 1");
    assert_eq!(devices[1].index, 1);
    assert_eq!(devices[1].vram_mib, 0);
    assert_eq!(devices[1].vram_free_mib, 0);
    assert_eq!(devices[1].utilization_pct, Some(2));
    assert_eq!(devices[2].index, 7);
    assert_eq!(devices[2].vram_mib, 3);
    assert_eq!(devices[2].vram_free_mib, 3);
    assert_eq!(devices[2].utilization_pct, None);
}

#[test]
fn rocm_table_without_rows_has_no_devices() {
    assert_eq!(parse_rocm_csv("", None, &vec![]).unwrap_err(), GpuError::NoDevices);
    assert_eq!(
        parse_rocm_csv("device,VRAM Total Memory (B)\n", None, &vec![]).unwrap_err(),
        GpuError::NoDevices
    );
    assert_eq!(
        parse_rocm_csv("device\n#only a remark\n", None, &vec![]).unwrap_err(),
        GpuError::NoDevices
    );
}

#[test]
fn rocm_load_over_255_is_unknown() {
    let csv = "device,GPU use (%)\ncard0,256\ncard1,255\ncard2,+7%%\ncard3,-1\n";
    let devices = parse_rocm_csv(csv, None, &vec![]).unwrap();
    assert_eq!(devices[0].utilization_pct, None);
    assert_eq!(devices[1].utilization_pct, Some(255));
    assert_eq!(devices[2].utilization_pct, Some(7));
    assert_eq!(devices[3].utilization_pct, None);
}

#[test]
fn rocm_indices_are_those_of_the_table() {
    let csv = "device\ncard3\n#x\ncard12\nnothing\n";
    assert_eq!(rocm_device_indices(csv), vec![3, 12, 2]);
    let devices = parse_rocm_csv(csv, Some("Driver version: 1"), &vec![]).unwrap();
    let indices: Vec<u32> = devices.iter().map(|d| d.index).collect();
    assert_eq!(indices, vec![3, 12, 2]);
    assert_eq!(rocm_device_indices(""), Vec::<u32>::new());
}

#[test]
fn driver_version_is_read_after_the_colon() {
    assert_eq!(rocm_driver_version("Driver version: 6.1.3\n"), Some("6.1.3".to_string()));
    assert_eq!(
        rocm_driver_version("====\nDRIVER VERSION :  6.2 : extra\nDriver version: 7\n"),
        Some("6.2".to_string())
    );
    assert_eq!(rocm_driver_version("driver version 6\nDriver version: 7\n"), None);
    assert_eq!(rocm_driver_version("nothing here\n"), None);
    assert_eq!(rocm_driver_version(""), None);
}

#[test]
fn product_name_is_read_from_the_first_line_about_it() {
    assert_eq!(
        rocm_product_name("Card series: Radeon RX 7900 XTX\n"),
        Some("Radeon RX 7900 XTX".to_string())
    );
    assert_eq!(
        rocm_product_name("=====\nGPU[0]\t\t: Card series: \t\tRadeon\n"),
        Some("Card series".to_string())
    );
    assert_eq!(rocm_product_name("no name\n"), None);
}

#[test]
fn nvidia_lines_are_read_in_order() {
    let out = "0, NVIDIA GeForce RTX 4090, 24564, 20000, 3, 545.23.08, 8.9\n\
               1, Tesla T4, 15360, 15000, [N/A], 535.1, 7.5\n\
               too, few, fields\n\
               x, A, , 12, 300, d, 9.0, extra, fields\n";
    let devices = detect_nvidia(out).unwrap();
    assert_eq!(devices.len(), 3);
    assert_eq!(devices[0].vendor, GpuVendor::Nvidia);
    assert_eq!(devices[0].index, 0);
    assert_eq!(devices[0].name, "NVIDIA GeForce RTX 4090");
    assert_eq!(devices[0].vram_mib, 24564);
    assert_eq!(devices[0].vram_free_mib, 20000);
    assert_eq!(devices[0].utilization_pct, Some(3));
    assert_eq!(devices[0].driver_version, "545.23.08");
    assert_eq!(devices[0].compute_capability, Some("8.9".to_string()));
    assert_eq!(devices[1].index, 1);
    assert_eq!(devices[1].utilization_pct, None);
    assert_eq!(devices[2].index, 0);
    assert_eq!(devices[2].vram_mib, 0);
    assert_eq!(devices[2].vram_free_mib, 12);
    assert_eq!(devices[2].utilization_pct, None);
    assert_eq!(devices[2].compute_capability, Some("9.0, extra, fields".to_string()));
}

#[test]
fn nvidia_output_without_devices_is_an_error() {
    assert_eq!(detect_nvidia("").unwrap_err(), GpuError::NoDevices);
    assert_eq!(detect_nvidia("a,b,c\n\n").unwrap_err(), GpuError::NoDevices);
}

#[test]
fn gfx_version_prefers_the_card_file() {
    let devices = vec![amd_device("AMD Radeon RX 6800 XT")];
    let cards = vec![
        ("renderD128".to_string(), Some("9.9.9".to_string())),
        ("card0-DP-1".to_string(), Some("8.8.8".to_string())),
        ("card0".to_string(), None),
        ("card1".to_string(), Some("  11.0.1\n".to_string())),
        ("card2".to_string(), Some("7.7.7".to_string())),
    ];
    assert_eq!(detect_gfx_version(&devices, &cards), "11.0.1");
}

#[test]
fn gfx_version_is_guessed_from_names() {
    let none: Vec<(String, Option<String>)> = vec![];
    assert_eq!(detect_gfx_version(&vec![amd_device("AMD Radeon RX 6800 XT")], &none), "10.3.0");
    assert_eq!(detect_gfx_version(&vec![amd_device("radeon rx 5600m")], &none), "10.1.0");
    assert_eq!(detect_gfx_version(&vec![amd_device("Instinct MI300")], &none), "11.0.0");
    assert_eq!(detect_gfx_version(&vec![], &none), "11.0.0");
    let mut nvidia = nvidia_device(0, None);
    nvidia.name = "Not a 6900".to_string();
    let mixed = vec![nvidia, amd_device("Instinct"), amd_device("RX 5700 and 7900")];
    assert_eq!(detect_gfx_version(&mixed, &none), "11.0.0");
    let second = vec![amd_device("Instinct"), amd_device("RX 5700")];
    assert_eq!(detect_gfx_version(&second, &none), "10.1.0");
}

#[test]
fn ollama_env_for_cuda() {
    let devices = vec![nvidia_device(0, Some("7.5")), nvidia_device(3, Some("8.9"))];
    let env = build_ollama_env(&devices, &GpuBackend::Cuda, &vec![]);
    assert_eq!(
        env,
        vec![
            pair("CUDA_VISIBLE_DEVICES", "0,3"),
            pair("OLLAMA_CUDA", "1"),
            pair("OLLAMA_FLASH_ATTENTION", "1"),
            pair("OLLAMA_NUM_PARALLEL", "4"),
            pair("OLLAMA_KEEP_ALIVE", "30m"),
        ]
    );
}

#[test]
fn ollama_env_without_flash_attention() {
    for capability in [Some("7.5"), Some("x.9"), Some(""), Some(".8"), None] {
        let devices = vec![nvidia_device(2, capability)];
        let env = build_ollama_env(&devices, &GpuBackend::Cuda, &vec![]);
        assert_eq!(
            env,
            vec![
                pair("CUDA_VISIBLE_DEVICES", "2"),
                pair("OLLAMA_CUDA", "1"),
                pair("OLLAMA_NUM_PARALLEL", "2"),
                pair("OLLAMA_KEEP_ALIVE", "30m"),
            ]
        );
    }
    for capability in ["8", "8.0", "+9.1", "12.0.1"] {
        let devices = vec![nvidia_device(2, Some(capability))];
        let env = build_ollama_env(&devices, &GpuBackend::Cuda, &vec![]);
        assert!(env.contains(&pair("OLLAMA_FLASH_ATTENTION", "1")));
    }
}

#[test]
fn ollama_env_for_mixed_lists_nvidia_only() {
    let devices = vec![amd_device("a"), nvidia_device(1, None), amd_device("b")];
    let env = build_ollama_env(&devices, &GpuBackend::Mixed, &vec![]);
    assert_eq!(
        env,
        vec![
            pair("CUDA_VISIBLE_DEVICES", "1"),
            pair("OLLAMA_CUDA", "1"),
            pair("OLLAMA_NUM_PARALLEL", "6"),
            pair("OLLAMA_KEEP_ALIVE", "30m"),
        ]
    );
}

#[test]
fn ollama_env_for_rocm() {
    let mut second = amd_device("AMD Radeon RX 6900 XT");
    second.index = 10;
    let devices = vec![amd_device("Instinct"), second];
    let env = build_ollama_env(&devices, &GpuBackend::Rocm, &vec![]);
    assert_eq!(
        env,
        vec![
            pair("HIP_VISIBLE_DEVICES", "0,10"),
            pair("ROCR_VISIBLE_DEVICES", "0,10"),
            pair("HSA_OVERRIDE_GFX_VERSION", "10.3.0"),
            pair("OLLAMA_NUM_PARALLEL", "4"),
            pair("OLLAMA_KEEP_ALIVE", "30m"),
        ]
    );
}

#[test]
fn ollama_env_without_devices() {
    let env = build_ollama_env(&vec![], &GpuBackend::CpuOnly, &vec![]);
    assert_eq!(
        env,
        vec![
            pair("OLLAMA_NUM_GPU", "0"),
            pair("OLLAMA_NUM_PARALLEL", "2"),
            pair("OLLAMA_KEEP_ALIVE", "30m"),
        ]
    );
}

#[test]
fn detect_without_tools_is_cpu_only() {
    let info = detect(&empty_probe());
    assert!(info.devices.is_empty());
    assert_eq!(info.backend, GpuBackend::CpuOnly);
    assert!(!info.is_gpu_available());
    assert_eq!(
        info.ollama_env,
        vec![
            pair("OLLAMA_NUM_GPU", "0"),
            pair("OLLAMA_NUM_PARALLEL", "2"),
            pair("OLLAMA_KEEP_ALIVE", "30m"),
        ]
    );
}

#[test]
fn detect_with_empty_output_is_cpu_only() {
    let mut probe = empty_probe();
    probe.nvidia_smi = Some(String::new());
    probe.rocm_smi = Some("device\n".to_string());
    let info = detect(&probe);
    assert!(info.devices.is_empty());
    assert_eq!(info.backend, GpuBackend::CpuOnly);
}

#[test]
fn detect_nvidia_only_is_cuda() {
    let mut probe = empty_probe();
    probe.nvidia_smi = Some("0, RTX 3090, 24576, 24000, 1, 535.0, 8.6\n".to_string());
    let info = detect(&probe);
    assert_eq!(info.devices.len(), 1);
    assert_eq!(info.backend, GpuBackend::Cuda);
    assert!(info.is_gpu_available());
    assert!(info.can_fit_model(24000));
    assert_eq!(info.total_vram_mib(), 24576);
    assert_eq!(
        info.ollama_env,
        vec![
            pair("CUDA_VISIBLE_DEVICES", "0"),
            pair("OLLAMA_CUDA", "1"),
            pair("OLLAMA_FLASH_ATTENTION", "1"),
            pair("OLLAMA_NUM_PARALLEL", "2"),
            pair("OLLAMA_KEEP_ALIVE", "30m"),
        ]
    );
}

#[test]
fn detect_amd_only_is_rocm() {
    let mut probe = empty_probe();
    probe.rocm_smi = Some(ROCM_TABLE.to_string());
    probe.rocm_driver = Some("Driver version: 6.1.3\n".to_string());
    probe.rocm_products = vec![(0, "Card series: Radeon RX 7800 XT\n".to_string())];
    probe.drm_cards = vec![("card0".to_string(), Some("11.0.2\n".to_string()))];
    let info = detect(&probe);
    assert_eq!(info.devices.len(), 1);
    assert_eq!(info.devices[0].name, "Radeon RX 7800 XT");
    assert_eq!(info.devices[0].driver_version, "6.1.3");
    assert_eq!(info.backend, GpuBackend::Rocm);
    assert_eq!(
        info.ollama_env,
        vec![
            pair("HIP_VISIBLE_DEVICES", "0"),
            pair("ROCR_VISIBLE_DEVICES", "0"),
            pair("HSA_OVERRIDE_GFX_VERSION", "11.0.2"),
            pair("OLLAMA_NUM_PARALLEL", "2"),
            pair("OLLAMA_KEEP_ALIVE", "30m"),
        ]
    );
}

#[test]
fn detect_both_vendors_is_mixed_with_nvidia_first() {
    let mut probe = empty_probe();
    probe.nvidia_smi = Some("4, RTX 3090, 24576, 24000, 1, 535.0, 7.0\n".to_string());
    probe.rocm_smi = Some(ROCM_TABLE.to_string());
    let info = detect(&probe);
    assert_eq!(info.devices.len(), 2);
    assert_eq!(info.devices[0].vendor, GpuVendor::Nvidia);
    assert_eq!(info.devices[1].vendor, GpuVendor::Amd);
    assert_eq!(info.backend, GpuBackend::Mixed);
    assert_eq!(info.total_vram_mib(), 24576 + 16384);
    assert_eq!(
        info.ollama_env,
        vec![
            pair("CUDA_VISIBLE_DEVICES", "4"),
            pair("OLLAMA_CUDA", "1"),
            pair("OLLAMA_NUM_PARALLEL", "4"),
            pair("OLLAMA_KEEP_ALIVE", "30m"),
        ]
    );
}

#[test]
fn largest_free_memory_is_that_of_the_best_device() {
    let mut a = nvidia_device(0, None);
    a.vram_free_mib = 9000;
    let mut b = nvidia_device(1, None);
    b.vram_free_mib = 10000;
    let mut c = amd_device("c");
    c.vram_free_mib = 10;
    let info = GpuInfo { devices: vec![a, b, c], backend: GpuBackend::Mixed, ollama_env: vec![] };
    assert_eq!(info.largest_free_mib(), 10000);
    assert!(info.can_fit_model(info.largest_free_mib()));
    assert!(!info.can_fit_model(info.largest_free_mib() + 1));
    let none = GpuInfo { devices: vec![], backend: GpuBackend::CpuOnly, ollama_env: vec![] };
    assert_eq!(none.largest_free_mib(), 0);
}
