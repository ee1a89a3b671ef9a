//! Graphics processors: what a probe of the machine found, and what the
//! inference runtime is told about it.
//!
//! Nothing here runs a program or reads a file. The caller probes the
//! machine and hands over what the tools printed, as a [`SystemProbe`].

use crate::text;
use crate::text::{
    digits_text,
    first_index,
    join,
    lines,
    mentions,
    number_or,
    parse_unsigned,
    rows,
    split_n,
    starts_with,
    strip_prefixes,
    strip_trailing,
    trim,
};
use vstd::prelude::*;

verus! {

/// Who made a device.
#[derive(Debug, Clone, Copy, PartialEq, Eq, Structural)]
pub enum GpuVendor {
    Nvidia,
    Amd,
}

/// The software through which the devices are driven.
#[derive(Debug, Clone, Copy, PartialEq, Eq, Structural)]
pub enum GpuBackend {
    /// No device: inference runs on the processor.
    CpuOnly,
    /// NVIDIA CUDA.
    Cuda,
    /// AMD ROCm.
    Rocm,
    /// Devices of both vendors.
    Mixed,
}

/// One device.
#[derive(Debug)]
pub struct GpuDevice {
    pub vendor: GpuVendor,
    pub index: u32,
    pub name: String,
    /// Memory in MiB.
    pub vram_mib: u64,
    /// Memory that was free when the machine was probed, in MiB.
    pub vram_free_mib: u64,
    /// Load in percent.
    pub utilization_pct: Option<u8>,
    /// Version of the driver, or of ROCm.
    pub driver_version: String,
    /// CUDA compute capability, such as `8.6`. NVIDIA only.
    pub compute_capability: Option<String>,
}

/// What a [`GpuDevice`] holds, as mathematical values.
pub struct GpuDeviceView {
    pub vendor: GpuVendor,
    pub index: u32,
    pub name: Seq<char>,
    pub vram_mib: u64,
    pub vram_free_mib: u64,
    pub utilization_pct: Option<u8>,
    pub driver_version: Seq<char>,
    pub compute_capability: Option<Seq<char>>,
}

impl View for GpuDevice {
    type V = GpuDeviceView;

    open spec fn view(&self) -> GpuDeviceView {
        GpuDeviceView {
            vendor: self.vendor,
            index: self.index,
            name: self.name@,
            vram_mib: self.vram_mib,
            vram_free_mib: self.vram_free_mib,
            utilization_pct: self.utilization_pct,
            driver_version: self.driver_version@,
            compute_capability: match self.compute_capability {
                Some(s) => Some(s@),
                None => None,
            },
        }
    }
}

impl Clone for GpuDevice {
    fn clone(&self) -> (out: GpuDevice)
        ensures
            out@ == self@,
    {
        GpuDevice {
            vendor: self.vendor,
            index: self.index,
            name: self.name.clone(),
            vram_mib: self.vram_mib,
            vram_free_mib: self.vram_free_mib,
            utilization_pct: self.utilization_pct,
            driver_version: self.driver_version.clone(),
            compute_capability: match &self.compute_capability {
                Some(s) => Some(s.clone()),
                None => None,
            },
        }
    }
}

/// The devices of the machine, and what follows from them.
#[derive(Debug, Clone)]
pub struct GpuInfo {
    pub devices: Vec<GpuDevice>,
    pub backend: GpuBackend,
    /// Settings recommended for the inference runtime: name and value.
    pub ollama_env: Vec<(String, String)>,
}

/// The views of a list of devices.
pub open spec fn device_views(devices: Seq<GpuDevice>) -> Seq<GpuDeviceView> {
    Seq::new(devices.len(), |i: int| devices[i]@)
}

/// The pairs of texts that a list of settings holds.
pub open spec fn setting_views(settings: Seq<(String, String)>) -> Seq<(Seq<char>, Seq<char>)> {
    Seq::new(settings.len(), |i: int| (settings[i].0@, settings[i].1@))
}

/// The memory of all devices together, in MiB.
pub open spec fn total_vram(devices: Seq<GpuDeviceView>) -> int
    decreases devices.len(),
{
    if devices.len() == 0 {
        0
    } else {
        total_vram(devices.drop_last()) + devices.last().vram_mib
    }
}

/// Whether one device alone has `required_mib` of free memory.
pub open spec fn fits_on_one(devices: Seq<GpuDeviceView>, required_mib: u64) -> bool {
    exists|i: int| 0 <= i < devices.len() && (#[trigger] devices[i]).vram_free_mib >= required_mib
}

/// The most free memory that one device has, in MiB; 0 without devices.
pub open spec fn largest_free(devices: Seq<GpuDeviceView>) -> u64
    decreases devices.len(),
{
    if devices.len() == 0 {
        0
    } else if devices.last().vram_free_mib > largest_free(devices.drop_last()) {
        devices.last().vram_free_mib
    } else {
        largest_free(devices.drop_last())
    }
}

/// A model fits on one device exactly if there is a device and the model
/// needs no more than the most free memory that one device has.
pub proof fn lemma_fits_up_to_largest_free(devices: Seq<GpuDeviceView>, required_mib: u64)
    ensures
        fits_on_one(devices, required_mib) <==> devices.len() > 0 && required_mib <= largest_free(
            devices,
        ),
    decreases devices.len(),
{
    if devices.len() > 0 {
        let rest = devices.drop_last();
        lemma_fits_up_to_largest_free(rest, required_mib);
        if fits_on_one(devices, required_mib) {
            let i = choose|i: int|
                0 <= i < devices.len() && (#[trigger] devices[i]).vram_free_mib >= required_mib;
            if i < rest.len() {
                assert(rest[i].vram_free_mib >= required_mib);
            }
        }
        if required_mib <= largest_free(devices) {
            if devices.last().vram_free_mib >= required_mib {
                assert(devices[devices.len() - 1].vram_free_mib >= required_mib);
            } else {
                assert(required_mib <= largest_free(rest));
                assert(rest.len() > 0);
                assert(fits_on_one(rest, required_mib));
                let i = choose|i: int|
                    0 <= i < rest.len() && (#[trigger] rest[i]).vram_free_mib >= required_mib;
                assert(devices[i].vram_free_mib >= required_mib);
            }
        }
    }
}

/// Whether a device of `vendor` is among `devices`.
pub open spec fn has_vendor(devices: Seq<GpuDeviceView>, vendor: GpuVendor) -> bool {
    exists|i: int| 0 <= i < devices.len() && (#[trigger] devices[i]).vendor == vendor
}

/// The backend for a set of devices.
pub open spec fn backend_for(devices: Seq<GpuDeviceView>) -> GpuBackend {
    if has_vendor(devices, GpuVendor::Nvidia) {
        if has_vendor(devices, GpuVendor::Amd) {
            GpuBackend::Mixed
        } else {
            GpuBackend::Cuda
        }
    } else if has_vendor(devices, GpuVendor::Amd) {
        GpuBackend::Rocm
    } else {
        GpuBackend::CpuOnly
    }
}

/// The memory of a part of the devices is no more than that of all.
pub proof fn lemma_total_vram_prefix(devices: Seq<GpuDeviceView>, n: int)
    requires
        0 <= n <= devices.len(),
    ensures
        0 <= total_vram(devices.take(n)) <= total_vram(devices),
    decreases devices.len() - n,
{
    if n == devices.len() {
        assert(devices.take(n) =~= devices);
        lemma_total_vram_nonnegative(devices);
    } else {
        lemma_total_vram_prefix(devices, n + 1);
        assert(devices.take(n + 1).drop_last() =~= devices.take(n));
        lemma_total_vram_nonnegative(devices.take(n));
    }
}

/// Memory is never negative.
pub proof fn lemma_total_vram_nonnegative(devices: Seq<GpuDeviceView>)
    ensures
        0 <= total_vram(devices),
    decreases devices.len(),
{
    if devices.len() > 0 {
        lemma_total_vram_nonnegative(devices.drop_last());
    }
}

/// Whether a device of `vendor` is among `devices`.
fn any_of_vendor(devices: &Vec<GpuDevice>, vendor: GpuVendor) -> (r: bool)
    ensures
        r == has_vendor(device_views(devices@), vendor),
{
    let mut i: usize = 0;
    while i < devices.len()
        invariant
            i <= devices.len(),
            forall|j: int| 0 <= j < i ==> (#[trigger] device_views(devices@)[j]).vendor != vendor,
        decreases devices.len() - i,
    {
        if devices[i].vendor == vendor {
            assert(device_views(devices@)[i as int].vendor == vendor);
            return true;
        }
        i += 1;
    }
    false
}

impl GpuInfo {
    /// The memory of all devices together, in MiB.
    pub fn total_vram_mib(&self) -> (total: u64)
        requires
            total_vram(device_views(self.devices@)) <= u64::MAX,
        ensures
            total == total_vram(device_views(self.devices@)),
    {
        let ghost views = device_views(self.devices@);
        let mut total: u64 = 0;
        let mut i: usize = 0;
        while i < self.devices.len()
            invariant
                i <= self.devices.len(),
                views == device_views(self.devices@),
                total_vram(views) <= u64::MAX,
                total == total_vram(views.take(i as int)),
            decreases self.devices.len() - i,
        {
            proof {
                lemma_total_vram_prefix(views, i + 1);
                assert(views.take(i + 1).drop_last() =~= views.take(i as int));
                assert(views.take(i + 1).last() == self.devices@[i as int]@);
            }
            total = total + self.devices[i].vram_mib;
            i += 1;
        }
        assert(views.take(i as int) =~= views);
        total
    }

    /// The memory of all devices together, in MiB, unless it is more than
    /// the result can hold.
    pub fn checked_total_vram_mib(&self) -> (total: Option<u64>)
        ensures
            match total {
                Some(t) => t == total_vram(device_views(self.devices@)),
                None => total_vram(device_views(self.devices@)) > u64::MAX,
            },
    {
        let ghost views = device_views(self.devices@);
        let mut total: u64 = 0;
        let mut i: usize = 0;
        while i < self.devices.len()
            invariant
                i <= self.devices.len(),
                views == device_views(self.devices@),
                total == total_vram(views.take(i as int)),
            decreases self.devices.len() - i,
        {
            proof {
                lemma_total_vram_prefix(views, i + 1);
                assert(views.take(i + 1).drop_last() =~= views.take(i as int));
                assert(views.take(i + 1).last() == self.devices@[i as int]@);
            }
            if self.devices[i].vram_mib > u64::MAX - total {
                return None;
            }
            total = total + self.devices[i].vram_mib;
            i += 1;
        }
        assert(views.take(i as int) =~= views);
        Some(total)
    }

    /// Whether the node can run a model that needs `required_mib` of
    /// memory: whether one device alone has that much free.
    pub fn can_fit_model(&self, required_mib: u64) -> (fits: bool)
        ensures
            fits == fits_on_one(device_views(self.devices@), required_mib),
    {
        let mut i: usize = 0;
        while i < self.devices.len()
            invariant
                i <= self.devices.len(),
                forall|j: int|
                    0 <= j < i ==> (#[trigger] device_views(self.devices@)[j]).vram_free_mib
                        < required_mib,
            decreases self.devices.len() - i,
        {
            if self.devices[i].vram_free_mib >= required_mib {
                assert(device_views(self.devices@)[i as int].vram_free_mib >= required_mib);
                return true;
            }
            i += 1;
        }
        false
    }

    /// The most free memory that one device has, in MiB: what the node
    /// can offer a single model.
    pub fn largest_free_mib(&self) -> (largest: u64)
        ensures
            largest == largest_free(device_views(self.devices@)),
    {
        let ghost views = device_views(self.devices@);
        let mut largest: u64 = 0;
        let mut i: usize = 0;
        while i < self.devices.len()
            invariant
                i <= self.devices.len(),
                views == device_views(self.devices@),
                largest == largest_free(views.take(i as int)),
            decreases self.devices.len() - i,
        {
            assert(views.take(i + 1).drop_last() =~= views.take(i as int));
            assert(views.take(i + 1).last() == self.devices@[i as int]@);
            if self.devices[i].vram_free_mib > largest {
                largest = self.devices[i].vram_free_mib;
            }
            i += 1;
        }
        assert(views.take(i as int) =~= views);
        largest
    }

    /// Whether the node drives a device at all.
    pub fn is_gpu_available(&self) -> (available: bool)
        ensures
            available == (self.backend != GpuBackend::CpuOnly),
    {
        self.backend != GpuBackend::CpuOnly
    }
}

/// The indices of the devices of `vendor`, in decimal and in order.
pub open spec fn index_texts(devices: Seq<GpuDeviceView>, vendor: GpuVendor) -> Seq<Seq<char>>
    decreases devices.len(),
{
    if devices.len() == 0 {
        Seq::empty()
    } else if devices.last().vendor == vendor {
        index_texts(devices.drop_last(), vendor).push(digits_text(devices.last().index as nat))
    } else {
        index_texts(devices.drop_last(), vendor)
    }
}

/// The list of devices of `vendor` that the runtime is to see: their
/// indices, with commas between.
pub open spec fn visible_devices(devices: Seq<GpuDeviceView>, vendor: GpuVendor) -> Seq<char> {
    join(index_texts(devices, vendor), seq![','])
}

/// The major number of a device's compute capability: what stands before
/// the first dot, if that is a number.
pub open spec fn major_capability(device: GpuDeviceView) -> Option<nat> {
    match device.compute_capability {
        Some(capability) => parse_unsigned(
            capability.take(first_index(capability, '.')),
            u32::MAX as nat,
        ),
        None => None,
    }
}

/// Whether the device has the faster attention kernels: an NVIDIA device
/// of compute capability 8 or more.
pub open spec fn supports_flash(device: GpuDeviceView) -> bool {
    &&& device.vendor == GpuVendor::Nvidia
    &&& major_capability(device) matches Some(major)
    &&& major >= 8
}

/// Whether one of the devices has the faster attention kernels.
pub open spec fn any_supports_flash(devices: Seq<GpuDeviceView>) -> bool {
    exists|i: int| 0 <= i < devices.len() && supports_flash(#[trigger] devices[i])
}

/// The texts that a listing of graphics cards holds: the name of each
/// entry, and what its version file holds where it could be read.
pub open spec fn card_views(cards: Seq<(String, Option<String>)>) -> Seq<
    (Seq<char>, Option<Seq<char>>),
> {
    Seq::new(
        cards.len(),
        |i: int|
            (
                cards[i].0@,
                match cards[i].1 {
                    Some(s) => Some(s@),
                    None => None,
                },
            ),
    )
}

/// Whether a directory entry names a card, and not one of its outputs.
pub open spec fn is_card_entry(name: Seq<char>) -> bool {
    starts_with(name, "card"@) && first_index(name, '-') == name.len()
}

/// The version in the first version file of a card that could be read.
pub open spec fn gfx_from_cards(cards: Seq<(Seq<char>, Option<Seq<char>>)>) -> Option<Seq<char>>
    decreases cards.len(),
{
    if cards.len() == 0 {
        None
    } else if is_card_entry(cards[0].0) && cards[0].1 is Some {
        Some(trim(cards[0].1.unwrap()))
    } else {
        gfx_from_cards(cards.skip(1))
    }
}

/// The version that the name of a device gives away.
pub open spec fn gfx_for_name(name: Seq<char>) -> Option<Seq<char>> {
    if mentions(name, "7900"@) || mentions(name, "7800"@) || mentions(name, "7700"@) {
        Some("11.0.0"@)
    } else if mentions(name, "6900"@) || mentions(name, "6800"@) || mentions(name, "6700"@) {
        Some("10.3.0"@)
    } else if mentions(name, "5700"@) || mentions(name, "5600"@) {
        Some("10.1.0"@)
    } else {
        None
    }
}

/// The version that the name of the first AMD device gives away whose name
/// gives one away.
pub open spec fn gfx_from_names(devices: Seq<GpuDeviceView>) -> Option<Seq<char>>
    decreases devices.len(),
{
    if devices.len() == 0 {
        None
    } else if devices[0].vendor == GpuVendor::Amd && gfx_for_name(devices[0].name) is Some {
        gfx_for_name(devices[0].name)
    } else {
        gfx_from_names(devices.skip(1))
    }
}

/// The graphics version to tell the runtime for AMD devices: what a card's
/// version file says; else what a device's name gives away; else that of
/// the current cards.
pub open spec fn gfx_version(
    devices: Seq<GpuDeviceView>,
    cards: Seq<(Seq<char>, Option<Seq<char>>)>,
) -> Seq<char> {
    match gfx_from_cards(cards) {
        Some(version) => version,
        None => match gfx_from_names(devices) {
            Some(version) => version,
            None => "11.0.0"@,
        },
    }
}

/// How many requests the runtime is to serve at a time: two for each
/// device, and two without any.
pub open spec fn parallel_requests(devices: Seq<GpuDeviceView>) -> nat {
    if devices.len() == 0 {
        2
    } else {
        2 * devices.len()
    }
}

/// The settings recommended for the runtime: those of the backend, then
/// the number of parallel requests and the time to keep a model loaded.
pub open spec fn ollama_env(
    devices: Seq<GpuDeviceView>,
    backend: GpuBackend,
    gfx: Seq<char>,
) -> Seq<(Seq<char>, Seq<char>)> {
    let of_backend = match backend {
        GpuBackend::Cuda | GpuBackend::Mixed => {
            let cuda = seq![
                ("CUDA_VISIBLE_DEVICES"@, visible_devices(devices, GpuVendor::Nvidia)),
                ("OLLAMA_CUDA"@, "1"@),
            ];
            if any_supports_flash(devices) {
                cuda.push(("OLLAMA_FLASH_ATTENTION"@, "1"@))
            } else {
                cuda
            }
        },
        GpuBackend::Rocm => seq![
            ("HIP_VISIBLE_DEVICES"@, visible_devices(devices, GpuVendor::Amd)),
            ("ROCR_VISIBLE_DEVICES"@, visible_devices(devices, GpuVendor::Amd)),
            ("HSA_OVERRIDE_GFX_VERSION"@, gfx),
        ],
        GpuBackend::CpuOnly => seq![("OLLAMA_NUM_GPU"@, "0"@)],
    };
    of_backend + seq![
        ("OLLAMA_NUM_PARALLEL"@, digits_text(parallel_requests(devices))),
        ("OLLAMA_KEEP_ALIVE"@, "30m"@),
    ]
}

/// The list of devices of `vendor` that the runtime is to see.
fn visible_list(devices: &Vec<GpuDevice>, vendor: GpuVendor) -> (list: String)
    ensures
        list@ == visible_devices(device_views(devices@), vendor),
{
    let ghost views = device_views(devices@);
    let mut ids: Vec<Vec<char>> = Vec::new();
    let mut i: usize = 0;
    assert(views.take(0) =~= Seq::<GpuDeviceView>::empty());
    assert(rows(ids@) =~= Seq::<Seq<char>>::empty());
    while i < devices.len()
        invariant
            i <= devices.len(),
            views == device_views(devices@),
            rows(ids@) == index_texts(views.take(i as int), vendor),
        decreases devices.len() - i,
    {
        let ghost before = ids@;
        let ghost done = views.take(i + 1);
        assert(done.drop_last() =~= views.take(i as int));
        assert(done.last() == devices@[i as int]@);
        if devices[i].vendor == vendor {
            let mut id: Vec<char> = Vec::new();
            text::push_digits(&mut id, devices[i].index as u128);
            assert(id@ =~= digits_text(devices@[i as int].index as nat));
            ids.push(id);
            assert(rows(ids@) =~= rows(before).push(id@));
        }
        i += 1;
    }
    assert(views.take(i as int) =~= views);
    let joined = text::join_with_comma(&ids);
    text::string_of(&joined)
}

/// Whether the device has the faster attention kernels.
fn has_flash(device: &GpuDevice) -> (r: bool)
    ensures
        r == supports_flash(device@),
{
    if device.vendor != GpuVendor::Nvidia {
        return false;
    }
    match &device.compute_capability {
        Some(capability) => {
            let chars = text::chars_of(capability.as_str());
            assert(chars@.skip(0) =~= chars@);
            let dot = text::find_from(&chars, 0, '.');
            let major = text::slice_of(&chars, 0, dot);
            assert(major@ =~= chars@.take(dot as int));
            match text::parse_number(&major, 0xffff_ffff) {
                Some(n) => n >= 8,
                None => false,
            }
        },
        None => false,
    }
}

/// Whether one of the devices has the faster attention kernels.
fn any_has_flash(devices: &Vec<GpuDevice>) -> (r: bool)
    ensures
        r == any_supports_flash(device_views(devices@)),
{
    let mut i: usize = 0;
    while i < devices.len()
        invariant
            i <= devices.len(),
            forall|j: int| 0 <= j < i ==> !supports_flash(#[trigger] device_views(devices@)[j]),
        decreases devices.len() - i,
    {
        if has_flash(&devices[i]) {
            assert(supports_flash(device_views(devices@)[i as int]));
            return true;
        }
        i += 1;
    }
    false
}

/// One setting.
fn setting(name: &str, value: String) -> (pair: (String, String))
    ensures
        pair.0@ == name@,
        pair.1@ == value@,
{
    (name.to_owned(), value)
}

/// The version that the name of a device gives away.
fn gfx_of_name(name: &str) -> (version: Option<String>)
    ensures
        match version {
            Some(v) => gfx_for_name(name@) == Some(v@),
            None => gfx_for_name(name@) is None,
        },
{
    let chars = text::chars_of(name);
    if text::mentions_text(&chars, "7900") || text::mentions_text(&chars, "7800")
        || text::mentions_text(&chars, "7700") {
        Some("11.0.0".to_owned())
    } else if text::mentions_text(&chars, "6900") || text::mentions_text(&chars, "6800")
        || text::mentions_text(&chars, "6700") {
        Some("10.3.0".to_owned())
    } else if text::mentions_text(&chars, "5700") || text::mentions_text(&chars, "5600") {
        Some("10.1.0".to_owned())
    } else {
        None
    }
}

/// Whether a directory entry names a card, and not one of its outputs.
fn names_card(name: &str) -> (r: bool)
    ensures
        r == is_card_entry(name@),
{
    let chars = text::chars_of(name);
    let card = text::chars_of("card");
    assert(chars@.skip(0) =~= chars@);
    text::found_at(&chars, &card, 0) && text::find_from(&chars, 0, '-') == chars.len()
}

/// The graphics version to tell the runtime for AMD devices. `drm_cards`
/// lists the entries of the system's directory of graphics cards, each
/// with what its version file holds where that could be read.
pub fn detect_gfx_version(
    devices: &Vec<GpuDevice>,
    drm_cards: &Vec<(String, Option<String>)>,
) -> (version: String)
    ensures
        version@ == gfx_version(device_views(devices@), card_views(drm_cards@)),
{
    let ghost cards = card_views(drm_cards@);
    let ghost views = device_views(devices@);
    let mut i: usize = 0;
    assert(cards.skip(0) =~= cards);
    while i < drm_cards.len()
        invariant
            i <= drm_cards.len(),
            cards == card_views(drm_cards@),
            gfx_from_cards(cards) == gfx_from_cards(cards.skip(i as int)),
        decreases drm_cards.len() - i,
    {
        let entry = &drm_cards[i];
        assert(cards.skip(i as int)[0] == cards[i as int]);
        assert(cards.skip(i as int).skip(1) =~= cards.skip(i + 1));
        if names_card(entry.0.as_str()) {
            match &entry.1 {
                Some(content) => {
                    let chars = text::chars_of(content.as_str());
                    let trimmed = text::trimmed(&chars);
                    return text::string_of(&trimmed);
                },
                None => {},
            }
        }
        i += 1;
    }
    let mut j: usize = 0;
    assert(views.skip(0) =~= views);
    while j < devices.len()
        invariant
            j <= devices.len(),
            views == device_views(devices@),
            cards == card_views(drm_cards@),
            gfx_from_cards(cards) is None,
            gfx_from_names(views) == gfx_from_names(views.skip(j as int)),
        decreases devices.len() - j,
    {
        assert(views.skip(j as int)[0] == devices@[j as int]@);
        assert(views.skip(j as int).skip(1) =~= views.skip(j + 1));
        if devices[j].vendor == GpuVendor::Amd {
            match gfx_of_name(devices[j].name.as_str()) {
                Some(version) => {
                    return version;
                },
                None => {},
            }
        }
        j += 1;
    }
    "11.0.0".to_owned()
}

/// The settings recommended for the inference runtime: which devices it
/// is to see, whether it may use the faster attention kernels, how many
/// requests it is to serve at a time, and how long it keeps a model loaded.
pub fn build_ollama_env(
    devices: &Vec<GpuDevice>,
    backend: &GpuBackend,
    drm_cards: &Vec<(String, Option<String>)>,
) -> (env: Vec<(String, String)>)
    ensures
        setting_views(env@) == ollama_env(
            device_views(devices@),
            *backend,
            gfx_version(device_views(devices@), card_views(drm_cards@)),
        ),
{
    let mut env: Vec<(String, String)> = Vec::new();
    match backend {
        GpuBackend::Cuda | GpuBackend::Mixed => {
            env.push(setting("CUDA_VISIBLE_DEVICES", visible_list(devices, GpuVendor::Nvidia)));
            env.push(setting("OLLAMA_CUDA", "1".to_owned()));
            if any_has_flash(devices) {
                env.push(setting("OLLAMA_FLASH_ATTENTION", "1".to_owned()));
            }
        },
        GpuBackend::Rocm => {
            env.push(setting("HIP_VISIBLE_DEVICES", visible_list(devices, GpuVendor::Amd)));
            env.push(setting("ROCR_VISIBLE_DEVICES", visible_list(devices, GpuVendor::Amd)));
            env.push(
                setting("HSA_OVERRIDE_GFX_VERSION", detect_gfx_version(devices, drm_cards)),
            );
        },
        GpuBackend::CpuOnly => {
            env.push(setting("OLLAMA_NUM_GPU", "0".to_owned()));
        },
    }
    let gpu_count: u128 = if devices.len() == 0 {
        1
    } else {
        devices.len() as u128
    };
    let mut parallel: Vec<char> = Vec::new();
    text::push_digits(&mut parallel, gpu_count * 2);
    assert(parallel@ =~= digits_text(parallel_requests(device_views(devices@))));
    env.push(setting("OLLAMA_NUM_PARALLEL", text::string_of(&parallel)));
    env.push(setting("OLLAMA_KEEP_ALIVE", "30m".to_owned()));
    assert(setting_views(env@) =~= ollama_env(
        device_views(devices@),
        *backend,
        gfx_version(device_views(devices@), card_views(drm_cards@)),
    ));
    env
}

/// Why a probe gave no devices.
#[derive(Debug, Clone, Copy, PartialEq, Eq, Structural)]
pub enum GpuError {
    /// The tool listed no device.
    NoDevices,
}

/// The fields of a line of values separated by commas, at most `limit` of
/// them, each without the white space around it.
pub open spec fn csv_fields(line: Seq<char>, limit: nat) -> Seq<Seq<char>> {
    Seq::new(split_n(line, ',', limit).len(), |i: int| trim(split_n(line, ',', limit)[i]))
}

/// The fields of a line of values separated by commas.
fn fields_of(line: &Vec<char>, limit: usize) -> (fields: Vec<Vec<char>>)
    ensures
        rows(fields@) == csv_fields(line@, limit as nat),
        fields.len() <= limit,
        limit > 0 ==> fields.len() >= 1,
{
    proof {
        text::lemma_split_n_len(line@, ',', limit as nat);
    }
    let parts = text::split_up_to(line, ',', limit);
    let mut fields: Vec<Vec<char>> = Vec::new();
    let mut i: usize = 0;
    while i < parts.len()
        invariant
            i <= parts.len(),
            rows(parts@) == split_n(line@, ',', limit as nat),
            fields.len() == i,
            forall|j: int| 0 <= j < i ==> (#[trigger] fields@[j])@ == trim(rows(parts@)[j]),
        decreases parts.len() - i,
    {
        fields.push(text::trimmed(&parts[i]));
        i += 1;
    }
    assert(rows(fields@) =~= csv_fields(line@, limit as nat));
    fields
}

/// The device that a line of the NVIDIA tool describes: index, name,
/// memory, free memory, load, driver version and compute capability, in
/// this order. A line with fewer fields describes none. A number that
/// cannot be read counts as 0, and a load that cannot be read as unknown.
pub open spec fn nvidia_device(line: Seq<char>) -> Option<GpuDeviceView> {
    let fields = csv_fields(line, 7);
    if fields.len() < 7 {
        None
    } else {
        Some(
            GpuDeviceView {
                vendor: GpuVendor::Nvidia,
                index: number_or(fields[0], u32::MAX as nat, 0) as u32,
                name: fields[1],
                vram_mib: number_or(fields[2], u64::MAX as nat, 0) as u64,
                vram_free_mib: number_or(fields[3], u64::MAX as nat, 0) as u64,
                utilization_pct: match parse_unsigned(fields[4], u8::MAX as nat) {
                    Some(n) => Some(n as u8),
                    None => None,
                },
                driver_version: fields[5],
                compute_capability: Some(fields[6]),
            },
        )
    }
}

/// The devices that the lines of the NVIDIA tool describe, in order.
pub open spec fn nvidia_devices(lines: Seq<Seq<char>>) -> Seq<GpuDeviceView>
    decreases lines.len(),
{
    if lines.len() == 0 {
        Seq::empty()
    } else {
        match nvidia_device(lines.last()) {
            Some(device) => nvidia_devices(lines.drop_last()).push(device),
            None => nvidia_devices(lines.drop_last()),
        }
    }
}

/// The number that `s` writes if it is a number up to `max`, else 0.
fn number_or_zero(s: &Vec<char>, max: u64) -> (n: u64)
    ensures
        n == number_or(s@, max as nat, 0),
        n <= max,
{
    match text::parse_number(s, max) {
        Some(n) => n,
        None => 0,
    }
}

/// The device that a line of the NVIDIA tool describes.
fn nvidia_device_of(line: &Vec<char>) -> (device: Option<GpuDevice>)
    ensures
        match device {
            Some(d) => nvidia_device(line@) == Some(d@),
            None => nvidia_device(line@) is None,
        },
{
    let fields = fields_of(line, 7);
    if fields.len() < 7 {
        return None;
    }
    let ghost views = csv_fields(line@, 7);
    assert(forall|i: int| 0 <= i < 7 ==> (#[trigger] fields@[i])@ == views[i]) by {
        assert forall|i: int| 0 <= i < 7 implies (#[trigger] fields@[i])@ == views[i] by {
            assert(rows(fields@)[i] == views[i]);
        }
    }
    let utilization_pct = match text::parse_number(&fields[4], 255) {
        Some(n) => Some(n as u8),
        None => None,
    };
    Some(
        GpuDevice {
            vendor: GpuVendor::Nvidia,
            index: number_or_zero(&fields[0], 0xffff_ffff) as u32,
            name: text::string_of(&fields[1]),
            vram_mib: number_or_zero(&fields[2], u64::MAX),
            vram_free_mib: number_or_zero(&fields[3], u64::MAX),
            utilization_pct,
            driver_version: text::string_of(&fields[5]),
            compute_capability: Some(text::string_of(&fields[6])),
        },
    )
}

/// Reads what the NVIDIA tool printed for the query of index, name,
/// memory, free memory, load, driver version and compute capability, one
/// device on each line.
pub fn detect_nvidia(output: &str) -> (r: Result<Vec<GpuDevice>, GpuError>)
    ensures
        match r {
            Ok(devices) => {
                &&& devices.len() > 0
                &&& device_views(devices@) == nvidia_devices(lines(output@))
            },
            Err(e) => e == GpuError::NoDevices && nvidia_devices(lines(output@)).len() == 0,
        },
{
    let chars = text::chars_of(output);
    let all = text::lines_of(&chars);
    let ghost texts = lines(output@);
    let mut devices: Vec<GpuDevice> = Vec::new();
    let mut i: usize = 0;
    assert(texts.take(0) =~= Seq::<Seq<char>>::empty());
    assert(device_views(devices@) =~= Seq::<GpuDeviceView>::empty());
    while i < all.len()
        invariant
            i <= all.len(),
            texts == rows(all@),
            device_views(devices@) == nvidia_devices(texts.take(i as int)),
        decreases all.len() - i,
    {
        let ghost before = devices@;
        let ghost done = texts.take(i + 1);
        assert(done.drop_last() =~= texts.take(i as int));
        assert(done.last() == all@[i as int]@);
        match nvidia_device_of(&all[i]) {
            Some(device) => {
                devices.push(device);
                assert(device_views(devices@) =~= device_views(before).push(device@));
            },
            None => {},
        }
        i += 1;
    }
    assert(texts.take(i as int) =~= texts);
    if devices.len() == 0 {
        Err(GpuError::NoDevices)
    } else {
        Ok(devices)
    }
}

/// What a line of the AMD tool's report may be about.
#[derive(Debug, Clone, Copy, PartialEq, Eq, Structural)]
pub enum Label {
    DriverVersion,
    ProductName,
}

/// Whether the line is about `label`.
pub open spec fn is_labelled(line: Seq<char>, label: Label) -> bool {
    match label {
        Label::DriverVersion => mentions(line, "driver version"@),
        Label::ProductName => mentions(line, "card series"@) || mentions(line, "gpu"@),
    }
}

/// The first line that is about `label`.
pub open spec fn first_labelled(lines: Seq<Seq<char>>, label: Label) -> Option<Seq<char>>
    decreases lines.len(),
{
    if lines.len() == 0 {
        None
    } else if is_labelled(lines[0], label) {
        Some(lines[0])
    } else {
        first_labelled(lines.skip(1), label)
    }
}

/// What stands between the first colon of the line and the second, or the
/// end of the line.
pub open spec fn after_colon(line: Seq<char>) -> Option<Seq<char>> {
    if first_index(line, ':') == line.len() {
        None
    } else {
        let rest = line.skip(first_index(line, ':') + 1);
        Some(rest.take(first_index(rest, ':')))
    }
}

/// What a report says of `label`: what stands after the colon of the first
/// line that is about it, without the white space around it.
pub open spec fn labelled_value(output: Seq<char>, label: Label) -> Option<Seq<char>> {
    match first_labelled(lines(output), label) {
        Some(line) => match after_colon(line) {
            Some(value) => Some(trim(value)),
            None => None,
        },
        None => None,
    }
}

/// Whether the line is about `label`.
fn is_about(line: &Vec<char>, label: Label) -> (r: bool)
    ensures
        r == is_labelled(line@, label),
{
    match label {
        Label::DriverVersion => text::mentions_text(line, "driver version"),
        Label::ProductName => text::mentions_text(line, "card series") || text::mentions_text(
            line,
            "gpu",
        ),
    }
}

/// What a report says of `label`.
fn value_of(output: &str, label: Label) -> (value: Option<String>)
    ensures
        match value {
            Some(v) => labelled_value(output@, label) == Some(v@),
            None => labelled_value(output@, label) is None,
        },
{
    let chars = text::chars_of(output);
    let all = text::lines_of(&chars);
    let ghost texts = lines(output@);
    let mut i: usize = 0;
    assert(texts.skip(0) =~= texts);
    while i < all.len()
        invariant
            i <= all.len(),
            texts == rows(all@),
            texts == lines(output@),
            first_labelled(texts, label) == first_labelled(texts.skip(i as int), label),
        decreases all.len() - i,
    {
        let line = &all[i];
        assert(texts.skip(i as int)[0] == line@);
        assert(texts.skip(i as int).skip(1) =~= texts.skip(i + 1));
        if is_about(line, label) {
            assert(line@.skip(0) =~= line@);
            let colon = text::find_from(line, 0, ':');
            if colon == line.len() {
                return None;
            }
            let end = text::find_from(line, colon + 1, ':');
            let value = text::slice_of(line, colon + 1, end);
            assert(value@ =~= line@.skip(colon + 1).take(end - colon - 1));
            let trimmed = text::trimmed(&value);
            return Some(text::string_of(&trimmed));
        }
        i += 1;
    }
    None
}

/// The driver version in what the AMD tool printed when asked for it.
pub fn rocm_driver_version(output: &str) -> (version: Option<String>)
    ensures
        match version {
            Some(v) => labelled_value(output@, Label::DriverVersion) == Some(v@),
            None => labelled_value(output@, Label::DriverVersion) is None,
        },
{
    value_of(output, Label::DriverVersion)
}

/// The product name in what the AMD tool printed when asked for that of
/// one device.
pub fn rocm_product_name(output: &str) -> (name: Option<String>)
    ensures
        match name {
            Some(n) => labelled_value(output@, Label::ProductName) == Some(n@),
            None => labelled_value(output@, Label::ProductName) is None,
        },
{
    value_of(output, Label::ProductName)
}

/// The reports on single devices: the index asked for, and what the tool
/// printed.
pub open spec fn product_views(products: Seq<(u32, String)>) -> Seq<(u32, Seq<char>)> {
    Seq::new(products.len(), |i: int| (products[i].0, products[i].1@))
}

/// The first report on the device `index`.
pub open spec fn product_report(products: Seq<(u32, Seq<char>)>, index: u32) -> Option<Seq<char>>
    decreases products.len(),
{
    if products.len() == 0 {
        None
    } else if products[0].0 == index {
        Some(products[0].1)
    } else {
        product_report(products.skip(1), index)
    }
}

/// The name of the AMD device `index`: what its report says, or a name
/// made of the index where there is no report or it gives no name.
pub open spec fn rocm_name(products: Seq<(u32, Seq<char>)>, index: u32) -> Seq<char> {
    let made_up = "AMD GPU "@ + digits_text(index as nat);
    match product_report(products, index) {
        Some(report) => match labelled_value(report, Label::ProductName) {
            Some(name) => name,
            None => made_up,
        },
        None => made_up,
    }
}

/// The driver version for AMD devices: what the report says, or `unknown`.
pub open spec fn rocm_driver(report: Option<Seq<char>>) -> Seq<char> {
    match report {
        Some(output) => match labelled_value(output, Label::DriverVersion) {
            Some(version) => version,
            None => "unknown"@,
        },
        None => "unknown"@,
    }
}

/// The place of the first heading that mentions `needle`, or the number
/// of headings if none does.
pub open spec fn first_mention(headers: Seq<Seq<char>>, needle: Seq<char>) -> int
    decreases headers.len(),
{
    if headers.len() == 0 || mentions(headers[0], needle) {
        0
    } else {
        1 + first_mention(headers.skip(1), needle)
    }
}

/// The field under the first heading that mentions `needle`.
pub open spec fn cell(headers: Seq<Seq<char>>, fields: Seq<Seq<char>>, needle: Seq<char>) -> Option<
    Seq<char>,
> {
    let column = first_mention(headers, needle);
    if column < headers.len() && column < fields.len() {
        Some(fields[column])
    } else {
        None
    }
}

/// The number of bytes in the field under the first heading that mentions
/// `needle`, in MiB; 0 where there is no such field or it holds no number.
pub open spec fn cell_mib(
    headers: Seq<Seq<char>>,
    fields: Seq<Seq<char>>,
    needle: Seq<char>,
) -> nat {
    match cell(headers, fields, needle) {
        Some(value) => number_or(value, u64::MAX as nat, 0) / 1048576,
        None => 0,
    }
}

/// The index of the device in a row: the number in its first field, after
/// the word `card`; else the place of the device among those read.
pub open spec fn rocm_index(first: Seq<char>, count: nat) -> u32 {
    match parse_unsigned(strip_prefixes(first, "card"@), u32::MAX as nat) {
        Some(n) => n as u32,
        None => (count % 0x1_0000_0000) as u32,
    }
}

/// The device that a row of the AMD tool's table describes. `count` is
/// the number of devices read before it.
pub open spec fn rocm_device(
    headers: Seq<Seq<char>>,
    fields: Seq<Seq<char>>,
    count: nat,
    driver: Seq<char>,
    products: Seq<(u32, Seq<char>)>,
) -> GpuDeviceView {
    let index = rocm_index(fields[0], count);
    let total = cell_mib(headers, fields, "total memory"@);
    let used = cell_mib(headers, fields, "used memory"@);
    GpuDeviceView {
        vendor: GpuVendor::Amd,
        index,
        name: rocm_name(products, index),
        vram_mib: total as u64,
        vram_free_mib: if used <= total {
            (total - used) as u64
        } else {
            0
        },
        utilization_pct: match cell(headers, fields, "gpu use"@) {
            Some(value) => match parse_unsigned(strip_trailing(value, '%'), u8::MAX as nat) {
                Some(n) => Some(n as u8),
                None => None,
            },
            None => None,
        },
        driver_version: driver,
        compute_capability: None,
    }
}

/// Whether a row is a remark: its first field begins with `#`.
pub open spec fn is_remark(fields: Seq<Seq<char>>) -> bool {
    starts_with(fields[0], seq!['#'])
}

/// The devices that the rows below the headings describe, in order.
pub open spec fn rocm_devices(
    headers: Seq<Seq<char>>,
    body: Seq<Seq<char>>,
    driver: Seq<char>,
    products: Seq<(u32, Seq<char>)>,
) -> Seq<GpuDeviceView>
    decreases body.len(),
{
    if body.len() == 0 {
        Seq::empty()
    } else {
        let before = rocm_devices(headers, body.drop_last(), driver, products);
        let fields = csv_fields(body.last(), 20);
        if is_remark(fields) {
            before
        } else {
            before.push(rocm_device(headers, fields, before.len(), driver, products))
        }
    }
}

/// The devices that the AMD tool's table describes. Its first line holds
/// the headings; each further line that is no remark describes a device.
pub open spec fn rocm_table(
    csv: Seq<char>,
    driver: Seq<char>,
    products: Seq<(u32, Seq<char>)>,
) -> Seq<GpuDeviceView> {
    if lines(csv).len() == 0 {
        Seq::empty()
    } else {
        rocm_devices(csv_fields(lines(csv)[0], 20), lines(csv).skip(1), driver, products)
    }
}

/// The place of the first heading that mentions `needle`.
fn column_of(headers: &Vec<Vec<char>>, needle: &str) -> (column: usize)
    ensures
        column == first_mention(rows(headers@), needle@),
        column <= headers.len(),
{
    let ghost texts = rows(headers@);
    let mut i: usize = 0;
    assert(texts.skip(0) =~= texts);
    while i < headers.len()
        invariant
            i <= headers.len(),
            texts == rows(headers@),
            first_mention(texts, needle@) == i + first_mention(texts.skip(i as int), needle@),
        decreases headers.len() - i,
    {
        assert(texts.skip(i as int)[0] == headers@[i as int]@);
        assert(texts.skip(i as int).skip(1) =~= texts.skip(i + 1));
        if text::mentions_text(&headers[i], needle) {
            return i;
        }
        i += 1;
    }
    i
}

/// The number of bytes in the field under the first heading that mentions
/// `needle`, in MiB.
fn mib_under(headers: &Vec<Vec<char>>, fields: &Vec<Vec<char>>, needle: &str) -> (mib: u64)
    ensures
        mib == cell_mib(rows(headers@), rows(fields@), needle@),
{
    let column = column_of(headers, needle);
    if column < headers.len() && column < fields.len() {
        assert(rows(fields@)[column as int] == fields@[column as int]@);
        number_or_zero(&fields[column], u64::MAX) / 1048576
    } else {
        0
    }
}

/// The load in the field under the heading that mentions it.
fn load_under(headers: &Vec<Vec<char>>, fields: &Vec<Vec<char>>) -> (load: Option<u8>)
    ensures
        load == match cell(rows(headers@), rows(fields@), "gpu use"@) {
            Some(value) => match parse_unsigned(strip_trailing(value, '%'), u8::MAX as nat) {
                Some(n) => Some(n as u8),
                None => None,
            },
            None => None,
        },
{
    let column = column_of(headers, "gpu use");
    if column < headers.len() && column < fields.len() {
        assert(rows(fields@)[column as int] == fields@[column as int]@);
        let digits = text::without_trailing(&fields[column], '%');
        match text::parse_number(&digits, 255) {
            Some(n) => Some(n as u8),
            None => None,
        }
    } else {
        None
    }
}

/// The first report on the device `index`.
fn report_on(products: &Vec<(u32, String)>, index: u32) -> (report: Option<&String>)
    ensures
        match report {
            Some(r) => product_report(product_views(products@), index) == Some(r@),
            None => product_report(product_views(products@), index) is None,
        },
{
    let ghost views = product_views(products@);
    let mut i: usize = 0;
    assert(views.skip(0) =~= views);
    while i < products.len()
        invariant
            i <= products.len(),
            views == product_views(products@),
            product_report(views, index) == product_report(views.skip(i as int), index),
        decreases products.len() - i,
    {
        assert(views.skip(i as int)[0] == (products@[i as int].0, products@[i as int].1@));
        assert(views.skip(i as int).skip(1) =~= views.skip(i + 1));
        if products[i].0 == index {
            return Some(&products[i].1);
        }
        i += 1;
    }
    None
}

/// The name of the AMD device `index`.
fn name_of(products: &Vec<(u32, String)>, index: u32) -> (name: String)
    ensures
        name@ == rocm_name(product_views(products@), index),
{
    match report_on(products, index) {
        Some(report) => match rocm_product_name(report.as_str()) {
            Some(name) => {
                return name;
            },
            None => {},
        },
        None => {},
    }
    let mut made_up: Vec<char> = Vec::new();
    text::push_str(&mut made_up, "AMD GPU ");
    text::push_digits(&mut made_up, index as u128);
    assert(made_up@ =~= "AMD GPU "@ + digits_text(index as nat));
    text::string_of(&made_up)
}

/// The index of the device in a row.
fn index_of(first: &Vec<char>, count: usize) -> (index: u32)
    ensures
        index == rocm_index(first@, count as nat),
{
    let card = text::chars_of("card");
    let digits = text::without_prefixes(first, &card);
    match text::parse_number(&digits, 0xffff_ffff) {
        Some(n) => n as u32,
        None => ((count as u64) % 0x1_0000_0000) as u32,
    }
}

/// Reads the table that the AMD tool printed, with values separated by
/// commas. `driver_report` is what the tool printed when asked for the
/// driver version, if it ran; `product_reports` holds what it printed when
/// asked for the product name of single devices, each with the index of
/// its device.
pub fn parse_rocm_csv(
    csv: &str,
    driver_report: Option<&str>,
    product_reports: &Vec<(u32, String)>,
) -> (r: Result<Vec<GpuDevice>, GpuError>)
    ensures
        match r {
            Ok(devices) => {
                &&& devices.len() > 0
                &&& device_views(devices@) == rocm_table(
                    csv@,
                    rocm_driver(
                        match driver_report {
                            Some(report) => Some(report@),
                            None => None,
                        },
                    ),
                    product_views(product_reports@),
                )
            },
            Err(e) => {
                &&& e == GpuError::NoDevices
                &&& rocm_table(
                    csv@,
                    rocm_driver(
                        match driver_report {
                            Some(report) => Some(report@),
                            None => None,
                        },
                    ),
                    product_views(product_reports@),
                ).len() == 0
            },
        },
{
    let driver: String = match driver_report {
        Some(report) => match rocm_driver_version(report) {
            Some(version) => version,
            None => "unknown".to_owned(),
        },
        None => "unknown".to_owned(),
    };
    let chars = text::chars_of(csv);
    let all = text::lines_of(&chars);
    let mut devices: Vec<GpuDevice> = Vec::new();
    if all.len() == 0 {
        return Err(GpuError::NoDevices);
    }
    let headers = fields_of(&all[0], 20);
    let ghost products = product_views(product_reports@);
    let ghost body = lines(csv@).skip(1);
    let mut i: usize = 1;
    assert(body.take(0) =~= Seq::<Seq<char>>::empty());
    assert(device_views(devices@) =~= Seq::<GpuDeviceView>::empty());
    while i < all.len()
        invariant
            1 <= i <= all.len(),
            rows(all@) == lines(csv@),
            body == lines(csv@).skip(1),
            products == product_views(product_reports@),
            rows(headers@) == csv_fields(lines(csv@)[0], 20),
            device_views(devices@) == rocm_devices(
                rows(headers@),
                body.take(i - 1),
                driver@,
                products,
            ),
        decreases all.len() - i,
    {
        let ghost before = devices@;
        let ghost done = body.take(i as int);
        assert(done.drop_last() =~= body.take(i - 1));
        assert(done.last() == all@[i as int]@);
        let fields = fields_of(&all[i], 20);
        let hash = text::chars_of("#");
        proof {
            reveal_strlit("#");
            assert(hash@ =~= seq!['#']);
            assert(rows(fields@)[0] == fields@[0]@);
        }
        if !text::found_at(&fields[0], &hash, 0) {
            let index = index_of(&fields[0], devices.len());
            let total = mib_under(&headers, &fields, "total memory");
            let used = mib_under(&headers, &fields, "used memory");
            let device = GpuDevice {
                vendor: GpuVendor::Amd,
                index,
                name: name_of(product_reports, index),
                vram_mib: total,
                vram_free_mib: if used <= total {
                    total - used
                } else {
                    0
                },
                utilization_pct: load_under(&headers, &fields),
                driver_version: driver.clone(),
                compute_capability: None,
            };
            assert(device@ == rocm_device(
                rows(headers@),
                rows(fields@),
                device_views(before).len(),
                driver@,
                products,
            ));
            devices.push(device);
            assert(device_views(devices@) =~= device_views(before).push(device@));
        }
        i += 1;
    }
    assert(body.take(i - 1) =~= body);
    if devices.len() == 0 {
        Err(GpuError::NoDevices)
    } else {
        Ok(devices)
    }
}

/// The indices of the devices of a list, in order.
pub open spec fn indices_of(devices: Seq<GpuDeviceView>) -> Seq<u32> {
    Seq::new(devices.len(), |i: int| devices[i].index)
}

/// Which devices a table describes, and under which indices, does not
/// depend on the reports on driver and products.
pub proof fn lemma_rocm_indices(
    headers: Seq<Seq<char>>,
    body: Seq<Seq<char>>,
    driver: Seq<char>,
    products: Seq<(u32, Seq<char>)>,
    other_driver: Seq<char>,
    other_products: Seq<(u32, Seq<char>)>,
)
    ensures
        indices_of(rocm_devices(headers, body, driver, products)) == indices_of(
            rocm_devices(headers, body, other_driver, other_products),
        ),
    decreases body.len(),
{
    if body.len() > 0 {
        lemma_rocm_indices(
            headers,
            body.drop_last(),
            driver,
            products,
            other_driver,
            other_products,
        );
        let a = rocm_devices(headers, body.drop_last(), driver, products);
        let b = rocm_devices(headers, body.drop_last(), other_driver, other_products);
        assert(a.len() == indices_of(a).len());
        assert(b.len() == indices_of(b).len());
        let x = rocm_devices(headers, body, driver, products);
        let y = rocm_devices(headers, body, other_driver, other_products);
        assert(x.len() == y.len());
        assert forall|i: int| 0 <= i < x.len() implies x[i].index == y[i].index by {
            if i < a.len() {
                assert(indices_of(a)[i] == indices_of(b)[i]);
            }
        }
        assert(indices_of(x) =~= indices_of(y));
    } else {
        assert(indices_of(rocm_devices(headers, body, driver, products)) =~= indices_of(
            rocm_devices(headers, body, other_driver, other_products),
        ));
    }
}

/// The indices of the devices that the AMD tool's table describes: those
/// for which the product name is to be asked before the table is read with
/// [`parse_rocm_csv`].
pub fn rocm_device_indices(csv: &str) -> (indices: Vec<u32>)
    ensures
        forall|driver: Seq<char>, products: Seq<(u32, Seq<char>)>|
            indices@ == indices_of(#[trigger] rocm_table(csv@, driver, products)),
{
    let none: Vec<(u32, String)> = Vec::new();
    let mut indices: Vec<u32> = Vec::new();
    let ghost read = rocm_table(csv@, rocm_driver(None), product_views(none@));
    match parse_rocm_csv(csv, None, &none) {
        Ok(devices) => {
            let mut i: usize = 0;
            while i < devices.len()
                invariant
                    i <= devices.len(),
                    device_views(devices@) == read,
                    indices@ == indices_of(read).take(i as int),
                decreases devices.len() - i,
            {
                indices.push(devices[i].index);
                assert(device_views(devices@)[i as int] == devices@[i as int]@);
                assert(indices@ =~= indices_of(read).take(i + 1));
                i += 1;
            }
            assert(indices_of(read).take(i as int) =~= indices_of(read));
        },
        Err(_) => {
            assert(indices@ =~= indices_of(read));
        },
    }
    assert forall|driver: Seq<char>, products: Seq<(u32, Seq<char>)>|
        indices@ == indices_of(#[trigger] rocm_table(csv@, driver, products)) by {
        if lines(csv@).len() > 0 {
            lemma_rocm_indices(
                csv_fields(lines(csv@)[0], 20),
                lines(csv@).skip(1),
                rocm_driver(None),
                product_views(none@),
                driver,
                products,
            );
        }
    }
    indices
}

/// What a probe of the machine brought back.
#[derive(Debug, Clone)]
pub struct SystemProbe {
    /// What the NVIDIA tool printed for the device query, if it ran and
    /// reported success.
    pub nvidia_smi: Option<String>,
    /// The table that the AMD tool printed, if it ran and reported
    /// success.
    pub rocm_smi: Option<String>,
    /// What the AMD tool printed when asked for the driver version, if it
    /// ran.
    pub rocm_driver: Option<String>,
    /// What the AMD tool printed when asked for the product name of
    /// single devices, each with the index of its device.
    pub rocm_products: Vec<(u32, String)>,
    /// The entries of the system's directory of graphics cards, each with
    /// what its version file holds where that could be read.
    pub drm_cards: Vec<(String, Option<String>)>,
}

/// The text of a string that may be missing.
pub open spec fn text_of(s: Option<String>) -> Option<Seq<char>> {
    match s {
        Some(s) => Some(s@),
        None => None,
    }
}

/// The devices that a probe found: those of NVIDIA first, then those of
/// AMD.
pub open spec fn probed_devices(probe: SystemProbe) -> Seq<GpuDeviceView> {
    let nvidia = match probe.nvidia_smi {
        Some(output) => nvidia_devices(lines(output@)),
        None => Seq::empty(),
    };
    let amd = match probe.rocm_smi {
        Some(csv) => rocm_table(
            csv@,
            rocm_driver(text_of(probe.rocm_driver)),
            product_views(probe.rocm_products@),
        ),
        None => Seq::empty(),
    };
    nvidia + amd
}

/// Makes of a probe what the node knows of its devices. A tool that did
/// not run, or listed nothing, contributes no device; without any device
/// the node works on the processor alone.
pub fn detect(probe: &SystemProbe) -> (info: GpuInfo)
    ensures
        device_views(info.devices@) == probed_devices(*probe),
        info.backend == backend_for(probed_devices(*probe)),
        setting_views(info.ollama_env@) == ollama_env(
            probed_devices(*probe),
            info.backend,
            gfx_version(probed_devices(*probe), card_views(probe.drm_cards@)),
        ),
{
    let mut devices: Vec<GpuDevice> = Vec::new();
    match &probe.nvidia_smi {
        Some(output) => match detect_nvidia(output.as_str()) {
            Ok(found) => {
                let mut found = found;
                devices.append(&mut found);
            },
            Err(_) => {},
        },
        None => {},
    }
    let ghost nvidia = device_views(devices@);
    assert(nvidia =~= match probe.nvidia_smi {
        Some(output) => nvidia_devices(lines(output@)),
        None => Seq::empty(),
    });
    match &probe.rocm_smi {
        Some(csv) => {
            let driver_report: Option<&str> = match &probe.rocm_driver {
                Some(report) => Some(report.as_str()),
                None => None,
            };
            match parse_rocm_csv(csv.as_str(), driver_report, &probe.rocm_products) {
                Ok(found) => {
                    let mut found = found;
                    let ghost amd = device_views(found@);
                    devices.append(&mut found);
                    assert(device_views(devices@) =~= nvidia + amd);
                },
                Err(_) => {
                    assert(device_views(devices@) =~= nvidia + Seq::<GpuDeviceView>::empty());
                },
            }
        },
        None => {
            assert(device_views(devices@) =~= nvidia + Seq::<GpuDeviceView>::empty());
        },
    }
    assert(device_views(devices@) == probed_devices(*probe));
    let backend = if any_of_vendor(&devices, GpuVendor::Nvidia) {
        if any_of_vendor(&devices, GpuVendor::Amd) {
            GpuBackend::Mixed
        } else {
            GpuBackend::Cuda
        }
    } else if any_of_vendor(&devices, GpuVendor::Amd) {
        GpuBackend::Rocm
    } else {
        GpuBackend::CpuOnly
    };
    let ollama_env = build_ollama_env(&devices, &backend, &probe.drm_cards);
    GpuInfo { devices, backend, ollama_env }
}

} // verus!
