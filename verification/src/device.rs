//! Device names of the command line.

use crate::text;
use vstd::prelude::*;
use vstd::string::*;

verus! {

/// A device argument without surrounding space, if anything is left.
pub open spec fn spec_text(device: Option<Seq<char>>) -> Option<Seq<char>> {
    match device {
        Some(name) => if text::trimmed(name).len() > 0 {
            Some(text::trimmed(name))
        } else {
            None
        },
        None => None,
    }
}

pub open spec fn argument(device: Option<&str>) -> Option<Seq<char>> {
    match device {
        Some(name) => Some(name@),
        None => None,
    }
}

/// The device argument that counts.
pub fn device_spec(device: Option<&str>) -> (spec: Option<String>)
    ensures
        match (spec, spec_text(argument(device))) {
            (Some(name), Some(expected)) => name@ == expected,
            (None, None) => true,
            _ => false,
        },
{
    match device {
        Some(name) => {
            let trimmed = text::trim(name);
            proof {
                reveal_strlit("");
                if trimmed@.len() == 0 {
                    assert(trimmed@ == ""@);
                }
            }
            if text::same_text(trimmed.as_str(), "") {
                None
            } else {
                Some(trimmed)
            }
        },
        None => None,
    }
}

/// Whether a backend that runs on the processor alone takes a device argument.
pub open spec fn is_default_device(device: Option<Seq<char>>) -> bool {
    match spec_text(device) {
        None => true,
        Some(name) => name == "default"@ || name == "cpu"@,
    }
}

fn joined_five(a: &str, b: &str, c: &str, d: &str, e: &str) -> (s: String)
    ensures
        s@ == a@ + b@ + c@ + d@ + e@,
{
    let mut s: String = a.to_owned();
    s.append(b);
    s.append(c);
    s.append(d);
    s.append(e);
    s
}

/// Refuses every device but the processor.
pub fn ensure_default_device(device: Option<&str>, backend: &str) -> (outcome: Result<(), String>)
    ensures
        outcome is Ok <==> is_default_device(argument(device)),
        outcome is Err ==> outcome->Err_0@ == "backend "@ + backend@
            + " only supports the default CPU device, got '"@ + spec_text(argument(device))->0
            + "'"@,
{
    match device_spec(device) {
        None => Ok(()),
        Some(name) => {
            if text::same_text(name.as_str(), "default") || text::same_text(name.as_str(), "cpu") {
                Ok(())
            } else {
                Err(
                    joined_five(
                        "backend ",
                        backend,
                        " only supports the default CPU device, got '",
                        name.as_str(),
                        "'",
                    ),
                )
            }
        },
    }
}

/// A device name without the prefix `cuda:` or, failing that, `gpu:`.
pub open spec fn without_kind(name: Seq<char>) -> Seq<char> {
    match text::behind(name, "cuda:"@) {
        Some(rest) => rest,
        None => match text::behind(name, "gpu:"@) {
            Some(rest) => rest,
            None => name,
        },
    }
}

/// The device number that an argument names.
pub open spec fn device_index(device: Option<Seq<char>>) -> Option<usize> {
    match spec_text(device) {
        None => Some(0),
        Some(name) => if without_kind(name) == "default"@ {
            Some(0)
        } else {
            text::parsed_usize(without_kind(name))
        },
    }
}

/// Reads the number of a device.
pub fn parse_index_device(device: Option<&str>, backend: &str) -> (index: Result<usize, String>)
    ensures
        match device_index(argument(device)) {
            Some(expected) => index == Ok::<usize, String>(expected),
            None => index is Err && index->Err_0@ == "backend "@ + backend@
                + " expects --device <index>, got '"@ + without_kind(
                spec_text(argument(device))->0,
            ) + "'"@,
        },
{
    let name = match device_spec(device) {
        None => {
            return Ok(0);
        },
        Some(name) => name,
    };
    let rest = match text::strip_prefix(name.as_str(), "cuda:") {
        Some(rest) => rest,
        None => match text::strip_prefix(name.as_str(), "gpu:") {
            Some(rest) => rest,
            None => name,
        },
    };
    if text::same_text(rest.as_str(), "default") {
        return Ok(0);
    }
    match text::parse_usize(rest.as_str()) {
        Some(index) => Ok(index),
        None => Err(
            joined_five(
                "backend ",
                backend,
                " expects --device <index>, got '",
                rest.as_str(),
                "'",
            ),
        ),
    }
}

/// A graphics device: the one that the system prefers, or one by its kind and its
/// number among the devices of the kind.
#[derive(Clone, Copy, Debug, PartialEq, Eq, Structural)]
pub enum WgpuDevice {
    Default,
    Id { type_id: u16, index_id: u16 },
}

/// Number of a kind of device.
pub open spec fn kind_number(kind: Seq<char>) -> Option<u16> {
    if kind == "discrete"@ || kind == "discrete-gpu"@ || kind == "discrete_gpu"@ {
        Some(0)
    } else if kind == "integrated"@ || kind == "integrated-gpu"@ || kind == "integrated_gpu"@ {
        Some(1)
    } else if kind == "virtual"@ || kind == "virtual-gpu"@ || kind == "virtual_gpu"@ {
        Some(2)
    } else if kind == "existing"@ {
        Some(5)
    } else {
        None
    }
}

fn kind_of(kind: &str) -> (number: Option<u16>)
    ensures
        number == kind_number(kind@),
{
    if text::same_text(kind, "discrete") || text::same_text(kind, "discrete-gpu")
        || text::same_text(kind, "discrete_gpu") {
        Some(0)
    } else if text::same_text(kind, "integrated") || text::same_text(kind, "integrated-gpu")
        || text::same_text(kind, "integrated_gpu") {
        Some(1)
    } else if text::same_text(kind, "virtual") || text::same_text(kind, "virtual-gpu")
        || text::same_text(kind, "virtual_gpu") {
        Some(2)
    } else if text::same_text(kind, "existing") {
        Some(5)
    } else {
        None
    }
}

/// What a device name means.
pub enum WgpuName {
    Device(WgpuDevice),
    Unsupported,
    BadIndex,
}

/// The low 16 bits of a number.
pub open spec fn low_bits(n: usize) -> u16 {
    (n % 0x1_0000) as u16
}

/// A device name: the default, the processor, a number, or a kind and a number.
pub open spec fn wgpu_name(name: Seq<char>) -> WgpuName {
    let lower = text::ascii_lowered(name);
    if lower == "default"@ {
        WgpuName::Device(WgpuDevice::Default)
    } else if lower == "cpu"@ {
        WgpuName::Device(WgpuDevice::Id { type_id: 3, index_id: 0 })
    } else {
        match text::parsed_usize(lower) {
            Some(n) => WgpuName::Device(WgpuDevice::Id { type_id: 0, index_id: low_bits(n) }),
            None => {
                let at = text::first_char(lower, ':', 0);
                if at >= lower.len() {
                    WgpuName::Unsupported
                } else {
                    match (text::parsed_usize(lower.skip(at + 1)), kind_number(lower.take(at))) {
                        (None, _) => WgpuName::BadIndex,
                        (_, None) => WgpuName::Unsupported,
                        (Some(n), Some(kind)) => WgpuName::Device(
                            WgpuDevice::Id { type_id: kind, index_id: low_bits(n) },
                        ),
                    }
                }
            },
        }
    }
}

fn unsupported(name: &str, backend: &str) -> (message: String)
    ensures
        message@ == "unsupported --device '"@ + name@ + "' for backend "@ + backend@,
{
    let mut message: String = "unsupported --device '".to_owned();
    message.append(name);
    message.append("' for backend ");
    message.append(backend);
    message
}

/// Reads the name of a graphics device.
pub fn parse_wgpu_device(device: Option<&str>, backend: &str) -> (choice: Result<
    WgpuDevice,
    String,
>)
    ensures
        match spec_text(argument(device)) {
            None => choice == Ok::<WgpuDevice, String>(WgpuDevice::Default),
            Some(name) => match wgpu_name(name) {
                WgpuName::Device(expected) => choice == Ok::<WgpuDevice, String>(expected),
                WgpuName::Unsupported => choice is Err && choice->Err_0@
                    == "unsupported --device '"@ + name + "' for backend "@ + backend@,
                WgpuName::BadIndex => choice is Err && choice->Err_0@
                    == "invalid device index in --device '"@ + name + "'"@,
            },
        },
{
    let name = match device_spec(device) {
        None => {
            return Ok(WgpuDevice::Default);
        },
        Some(name) => name,
    };
    let lower = text::to_ascii_lowercase(name.as_str());
    if text::same_text(lower.as_str(), "default") {
        return Ok(WgpuDevice::Default);
    }
    if text::same_text(lower.as_str(), "cpu") {
        return Ok(WgpuDevice::Id { type_id: 3, index_id: 0 });
    }
    match text::parse_usize(lower.as_str()) {
        Some(index) => {
            return Ok(WgpuDevice::Id { type_id: 0, index_id: (index % 0x1_0000) as u16 });
        },
        None => {},
    }
    let (kind, index_text) = match text::split_once(lower.as_str(), ':') {
        Some(parts) => parts,
        None => {
            return Err(unsupported(name.as_str(), backend));
        },
    };
    let index: usize = match text::parse_usize(index_text.as_str()) {
        Some(index) => index,
        None => {
            let mut message: String = "invalid device index in --device '".to_owned();
            message.append(name.as_str());
            message.append("'");
            return Err(message);
        },
    };
    match kind_of(kind.as_str()) {
        Some(type_id) => Ok(WgpuDevice::Id { type_id, index_id: (index % 0x1_0000) as u16 }),
        None => Err(unsupported(name.as_str(), backend)),
    }
}

/// A device of the MLX backend.
#[derive(Clone, Copy, Debug, PartialEq, Eq, Structural)]
pub enum MlxDevice {
    Cpu,
    Gpu,
}

impl Default for MlxDevice {
    fn default() -> (device: Self)
        ensures
            device == MlxDevice::Gpu,
    {
        MlxDevice::Gpu
    }
}

impl MlxDevice {
    /// Number of the kind of device.
    pub open spec fn number(self) -> u16 {
        match self {
            MlxDevice::Cpu => 0,
            MlxDevice::Gpu => 1,
        }
    }

    /// The device of a number: the processor for 0, and else the graphics device.
    pub open spec fn numbered(type_id: u16) -> MlxDevice {
        if type_id == 0 {
            MlxDevice::Cpu
        } else {
            MlxDevice::Gpu
        }
    }

    pub fn from_id(type_id: u16) -> (device: Self)
        ensures
            device == MlxDevice::numbered(type_id),
    {
        if type_id == 0 {
            MlxDevice::Cpu
        } else {
            MlxDevice::Gpu
        }
    }

    pub fn to_id(self) -> (type_id: u16)
        ensures
            type_id == self.number(),
    {
        match self {
            MlxDevice::Cpu => 0,
            MlxDevice::Gpu => 1,
        }
    }

    pub fn name(self) -> (name: &'static str)
        ensures
            name@ == match self {
                MlxDevice::Cpu => "MLX CPU"@,
                MlxDevice::Gpu => "MLX GPU"@,
            },
    {
        match self {
            MlxDevice::Cpu => "MLX CPU",
            MlxDevice::Gpu => "MLX GPU",
        }
    }
}

/// A device is found again by its number.
pub proof fn law_device_numbers_come_back(device: MlxDevice)
    ensures
        MlxDevice::numbered(device.number()) == device,
{
}

/// The MLX device that an argument names.
pub open spec fn mlx_device(device: Option<Seq<char>>) -> Option<MlxDevice> {
    match spec_text(device) {
        None => Some(MlxDevice::Gpu),
        Some(name) => if name == "default"@ || name == "gpu"@ {
            Some(MlxDevice::Gpu)
        } else if name == "cpu"@ {
            Some(MlxDevice::Cpu)
        } else {
            None
        },
    }
}

/// Reads the name of an MLX device.
pub fn parse_mlx_device(device: Option<&str>) -> (choice: Result<MlxDevice, String>)
    ensures
        match mlx_device(argument(device)) {
            Some(expected) => choice == Ok::<MlxDevice, String>(expected),
            None => choice is Err && choice->Err_0@
                == "backend mlx expects --device gpu, cpu, or default, got '"@ + spec_text(
                argument(device),
            )->0 + "'"@,
        },
{
    let name = match device_spec(device) {
        None => {
            return Ok(MlxDevice::Gpu);
        },
        Some(name) => name,
    };
    if text::same_text(name.as_str(), "default") || text::same_text(name.as_str(), "gpu") {
        Ok(MlxDevice::Gpu)
    } else if text::same_text(name.as_str(), "cpu") {
        Ok(MlxDevice::Cpu)
    } else {
        let mut message: String =
            "backend mlx expects --device gpu, cpu, or default, got '".to_owned();
        message.append(name.as_str());
        message.append("'");
        Err(message)
    }
}

proof fn lemma_plain(name: Seq<char>)
    requires
        name.len() > 0,
        forall|i: int| 0 <= i < name.len() ==> '!' <= #[trigger] name[i] && name[i] <= '~',
    ensures
        spec_text(Some(name)) == Some(name),
{
    text::law_marks_are_not_white_space(name[0]);
    text::law_marks_are_not_white_space(name.last());
    assert('!' <= name[0] && name[0] <= '~');
    assert('!' <= name[name.len() - 1] && name[name.len() - 1] <= '~');
    text::law_surrounding_space_is_taken(Seq::empty(), name, Seq::empty());
    assert(Seq::<char>::empty() + name + Seq::empty() == name);
}

/// Space around a device argument is no matter, and nothing but space is as good as no
/// argument.
pub proof fn law_space_around_a_device_is_no_matter(
    before: Seq<char>,
    name: Seq<char>,
    after: Seq<char>,
)
    requires
        forall|i: int| 0 <= i < before.len() ==> text::is_white_space(#[trigger] before[i]),
        forall|i: int| 0 <= i < after.len() ==> text::is_white_space(#[trigger] after[i]),
        text::is_trimmed(name),
    ensures
        name.len() > 0 ==> spec_text(Some(before + name + after)) == Some(name),
        name.len() == 0 ==> spec_text(Some(before + name + after)) is None,
        spec_text(None) is None,
{
    let whole = before + name + after;
    if name.len() > 0 {
        text::law_surrounding_space_is_taken(before, name, after);
    } else {
        text::law_trimming_takes_white_space_alone(whole);
        assert forall|i: int| 0 <= i < whole.len() implies text::is_white_space(
            #[trigger] whole[i],
        ) by {
            if i < before.len() {
                assert(whole[i] == before[i]);
            } else {
                assert(whole[i] == after[i - before.len()]);
            }
        }
    }
}

/// A device is named by its number, alone or behind `cuda:` or `gpu:`; the first one
/// stands for none and for the default.
pub proof fn law_devices_go_by_their_numbers(n: usize)
    ensures
        device_index(Some(text::decimal(n as nat))) == Some(n),
        device_index(Some("cuda:"@ + text::decimal(n as nat))) == Some(n),
        device_index(Some("gpu:"@ + text::decimal(n as nat))) == Some(n),
        device_index(None) == Some(0usize),
        device_index(Some("default"@)) == Some(0usize),
        device_index(Some("cpu"@)) is None,
{
    let digits = text::decimal(n as nat);
    text::lemma_decimal(n as nat);
    text::law_numbers_are_read_back(n as nat, usize::MAX as nat);
    reveal_strlit("cuda:");
    reveal_strlit("gpu:");
    reveal_strlit("default");
    reveal_strlit("cpu");
    assert("default"@[0] == 'd' && "cuda:"@[0] == 'c' && "gpu:"@[0] == 'g' && "cpu"@[0] == 'c');
    assert(text::is_digit(digits[0]));
    assert forall|i: int| 0 <= i < digits.len() implies '!' <= #[trigger] digits[i] && digits[i]
        <= '~' by {
        assert(text::is_digit(digits[i]));
    }
    lemma_plain(digits);
    assert(without_kind(digits) == digits);
    let cuda = "cuda:"@ + digits;
    assert forall|i: int| 0 <= i < cuda.len() implies '!' <= #[trigger] cuda[i] && cuda[i]
        <= '~' by {
        if i >= 5 {
            assert(cuda[i] == digits[i - 5]);
        }
    }
    lemma_plain(cuda);
    assert("cuda:"@.is_prefix_of(cuda));
    assert(cuda.skip(5) == digits);
    let gpu = "gpu:"@ + digits;
    assert forall|i: int| 0 <= i < gpu.len() implies '!' <= #[trigger] gpu[i] && gpu[i]
        <= '~' by {
        if i >= 4 {
            assert(gpu[i] == digits[i - 4]);
        }
    }
    lemma_plain(gpu);
    assert(!"cuda:"@.is_prefix_of(gpu)) by {
        assert(gpu[0] == 'g');
    }
    assert("gpu:"@.is_prefix_of(gpu));
    assert(gpu.skip(4) == digits);
    lemma_plain("default"@);
    assert(!"cuda:"@.is_prefix_of("default"@) && !"gpu:"@.is_prefix_of("default"@));
    assert(without_kind("default"@) == "default"@);
    lemma_plain("cpu"@);
    assert(!"cuda:"@.is_prefix_of("cpu"@) && !"gpu:"@.is_prefix_of("cpu"@));
    text::law_other_texts_are_no_numbers("cpu"@, 0, usize::MAX as nat);
    assert("cpu"@.len() == 3 && "default"@.len() == 7);
}

/// A graphics device is named by its number, or by what it is and its number among those:
/// discrete ones have type 0, integrated ones 1, virtual ones 2, the processor 3, and
/// existing ones 5. Nothing else has a type, and no type goes without a number.
pub proof fn law_graphics_devices_go_by_kind_and_number(kind: Seq<char>, n: usize)
    requires
        text::ascii_lowered(kind) == kind,
        forall|i: int| 0 <= i < kind.len() ==> #[trigger] kind[i] != ':',
        kind.len() > 0,
    ensures
        ({
            let digits = text::decimal(n as nat);
            let plain = wgpu_name(digits);
            let named = wgpu_name(kind + seq![':'] + digits);
            let low = n % 0x1_0000;
            &&& plain == WgpuName::Device(WgpuDevice::Id { type_id: 0, index_id: low as u16 })
            &&& kind == "discrete"@ || kind == "discrete-gpu"@ || kind == "discrete_gpu"@
                ==> named == WgpuName::Device(WgpuDevice::Id { type_id: 0, index_id: low as u16 })
            &&& kind == "integrated"@ || kind == "integrated-gpu"@ || kind == "integrated_gpu"@
                ==> named == WgpuName::Device(WgpuDevice::Id { type_id: 1, index_id: low as u16 })
            &&& kind == "virtual"@ || kind == "virtual-gpu"@ || kind == "virtual_gpu"@ ==> named
                == WgpuName::Device(WgpuDevice::Id { type_id: 2, index_id: low as u16 })
            &&& kind == "existing"@ ==> named == WgpuName::Device(
                WgpuDevice::Id { type_id: 5, index_id: low as u16 },
            )
            &&& named is Device ==> kind == "discrete"@ || kind == "discrete-gpu"@ || kind
                == "discrete_gpu"@ || kind == "integrated"@ || kind == "integrated-gpu"@ || kind
                == "integrated_gpu"@ || kind == "virtual"@ || kind == "virtual-gpu"@ || kind
                == "virtual_gpu"@ || kind == "existing"@
            &&& wgpu_name(kind + seq![':']) is BadIndex
            &&& wgpu_name("cpu"@) == WgpuName::Device(WgpuDevice::Id { type_id: 3, index_id: 0 })
            &&& wgpu_name("default"@) == WgpuName::Device(WgpuDevice::Default)
        }),
{
    let digits = text::decimal(n as nat);
    text::lemma_decimal(n as nat);
    text::law_numbers_are_read_back(n as nat, usize::MAX as nat);
    lemma_kinds_differ();
    reveal_strlit("default");
    reveal_strlit("cpu");
    assert("default"@[0] == 'd' && "cpu"@[0] == 'c');
    assert forall|i: int| 0 <= i < digits.len() implies text::ascii_lower(#[trigger] digits[i])
        == digits[i] by {
        assert(text::is_digit(digits[i]));
    }
    assert(text::ascii_lowered(digits) == digits);
    assert(text::is_digit(digits[0]));
    let name = kind + seq![':'] + digits;
    let at = kind.len() as int;
    assert forall|i: int| 0 <= i < name.len() implies text::ascii_lower(#[trigger] name[i])
        == name[i] by {
        if i < at {
            assert(text::ascii_lowered(kind)[i] == kind[i]);
        } else if i > at {
            assert(name[i] == digits[i - at - 1]);
        }
    }
    assert(text::ascii_lowered(name) == name);
    assert(name[at] == ':');
    lemma_first_colon(name, 0, at);
    text::law_other_texts_are_no_numbers(name, at, usize::MAX as nat);
    assert(name.take(at) == kind);
    assert(name.skip(at + 1) == digits);
    assert forall|i: int| 0 <= i < "default"@.len() implies #[trigger] "default"@[i] != ':' by {}
    assert forall|i: int| 0 <= i < "cpu"@.len() implies #[trigger] "cpu"@[i] != ':' by {}
    assert(name != "default"@ && name != "cpu"@) by {
        if name == "default"@ {
            assert("default"@[at] == ':');
        }
        if name == "cpu"@ {
            assert("cpu"@[at] == ':');
        }
    }
    let bare = kind + seq![':'];
    assert forall|i: int| 0 <= i < bare.len() implies text::ascii_lower(#[trigger] bare[i])
        == bare[i] by {
        if i < at {
            assert(text::ascii_lowered(kind)[i] == kind[i]);
        }
    }
    assert(text::ascii_lowered(bare) == bare);
    assert(bare[at] == ':');
    lemma_first_colon(bare, 0, at);
    text::law_other_texts_are_no_numbers(bare, at, usize::MAX as nat);
    assert(bare.skip(at + 1) == Seq::<char>::empty());
    assert(bare != "default"@ && bare != "cpu"@) by {
        if bare == "default"@ {
            assert("default"@[at] == ':');
        }
        if bare == "cpu"@ {
            assert("cpu"@[at] == ':');
        }
    }
    assert(text::ascii_lowered("cpu"@) == "cpu"@);
    assert(text::ascii_lowered("default"@) == "default"@);
    assert("cpu"@.len() == 3 && "default"@.len() == 7);
}

proof fn lemma_first_colon(s: Seq<char>, from: int, at: int)
    requires
        0 <= from <= at < s.len(),
        s[at] == ':',
        forall|i: int| from <= i < at ==> #[trigger] s[i] != ':',
    ensures
        text::first_char(s, ':', from) == at,
    decreases at - from,
{
    if from < at {
        assert(s[from] != ':');
        lemma_first_colon(s, from + 1, at);
    }
}

proof fn lemma_kinds_differ()
    ensures
        "discrete"@[0] == 'd' && "discrete-gpu"@[0] == 'd' && "discrete_gpu"@[0] == 'd',
        "integrated"@[0] == 'i' && "integrated-gpu"@[0] == 'i' && "integrated_gpu"@[0] == 'i',
        "virtual"@[0] == 'v' && "virtual-gpu"@[0] == 'v' && "virtual_gpu"@[0] == 'v',
        "existing"@[0] == 'e',
{
    reveal_strlit("discrete");
    reveal_strlit("discrete-gpu");
    reveal_strlit("discrete_gpu");
    reveal_strlit("integrated");
    reveal_strlit("integrated-gpu");
    reveal_strlit("integrated_gpu");
    reveal_strlit("virtual");
    reveal_strlit("virtual-gpu");
    reveal_strlit("virtual_gpu");
    reveal_strlit("existing");
}

/// The MLX backend takes the graphics device by its name, by default or for want of a
/// name, the processor by its name, and nothing else.
pub proof fn law_mlx_devices_go_by_their_names(name: Seq<char>)
    requires
        text::is_trimmed(name),
        name.len() > 0,
    ensures
        mlx_device(Some(name)) == Some(MlxDevice::Gpu) <==> name == "gpu"@ || name == "default"@,
        mlx_device(Some(name)) == Some(MlxDevice::Cpu) <==> name == "cpu"@,
        mlx_device(None) == Some(MlxDevice::Gpu),
        is_default_device(Some(name)) <==> name == "cpu"@ || name == "default"@,
        is_default_device(None),
{
    text::law_surrounding_space_is_taken(Seq::empty(), name, Seq::empty());
    assert(Seq::<char>::empty() + name + Seq::empty() == name);
    reveal_strlit("gpu");
    reveal_strlit("cpu");
    reveal_strlit("default");
    assert("gpu"@[0] == 'g' && "cpu"@[0] == 'c' && "default"@[0] == 'd');
}

} // verus!
