use vstd::prelude::*;

use crate::oled_buffer::OledBuffer;

verus! {

/// USB vendor ID of the reference keyboard.
pub const VENDOR_ID: u16 = 0x1038;

/// USB product ID of the reference keyboard.
pub const DEVICE_ID: u16 = 0x1610;

/// Width of the reference display, in pixels.
pub const OLED_WIDTH: usize = 128;

/// Height of the reference display, in pixels.
pub const OLED_HEIGHT: usize = 40;

/// The USB interface that carries display updates.
pub const INTERFACE: u8 = 1;

/// Request type of an update: host to device, class, interface.
pub const REQUEST_TYPE: u8 = 0x21;

/// Request code of an update (HID "Set Report").
pub const REQUEST: u8 = 0x09;

/// Value field of an update's control transfer.
pub const REQUEST_VALUE: u16 = 0x0300;

/// First payload byte of an update.
pub const UPDATE_COMMAND: u8 = 0x65;

/// How long an update may take before it counts as failed, in seconds.
pub const TIMEOUT_SECS: u64 = 1;

/// Why talking to the display failed.
#[derive(Clone, Copy, PartialEq, Eq, Debug, Structural)]
pub enum DeviceError {
    /// No attached device has the requested vendor and product IDs.
    NotFound,
    /// The list of attached devices could not be obtained.
    EnumerationError,
    /// The matching device could not be opened.
    OpenError,
    /// The display interface could not be claimed.
    ClaimError,
    /// A control transfer failed or timed out.
    TransferError,
}

/// The fixed `(width, height)` of the display family, whether or not a
/// device is open.
pub fn dimensions() -> (r: (usize, usize))
    ensures
        r == (OLED_WIDTH, OLED_HEIGHT),
{
    (OLED_WIDTH, OLED_HEIGHT)
}

/// The payload of a display update for `frame`: the command byte, the packed
/// frame, and one trailing zero byte.
pub fn update_payload(frame: &OledBuffer) -> (r: Vec<u8>)
    requires
        frame.well_formed(),
    ensures
        r@.len() == frame@.cells.len() / 8 + 2,
        r@[0] == UPDATE_COMMAND,
        r@[r@.len() - 1] == 0,
        frame@.serializes(r@.subrange(1, r@.len() - 1)),
{
    let n = frame.pixel_count();
    let count = n / 8;
    let mut packed: Vec<u8> = Vec::new();
    let mut i: usize = 0;
    while i < count
        invariant
            i <= count,
            packed@.len() == i,
        decreases count - i,
    {
        packed.push(0);
        i = i + 1;
    }
    frame.to_buffer(packed.as_mut_slice());
    let mut payload: Vec<u8> = Vec::new();
    payload.push(UPDATE_COMMAND);
    let mut k: usize = 0;
    while k < count
        invariant
            k <= count,
            packed@.len() == count,
            payload@.len() == k + 1,
            payload@[0] == UPDATE_COMMAND,
            forall|j: int| 0 <= j < k ==> #[trigger] payload@[j + 1] == packed@[j],
        decreases count - k,
    {
        payload.push(packed[k]);
        k = k + 1;
    }
    payload.push(0);
    proof {
        assert(payload@.subrange(1, payload@.len() - 1) =~= packed@);
    }
    payload
}

/// `descriptors[i]` is the first readable descriptor with the given IDs.
pub open spec fn is_first_match(descriptors: Seq<Option<(u16, u16)>>, vendor_id: u16, product_id: u16, i: int) -> bool {
    &&& 0 <= i < descriptors.len()
    &&& descriptors[i] == Some((vendor_id, product_id))
    &&& forall|j: int| 0 <= j < i ==> #[trigger] descriptors[j] != Some((vendor_id, product_id))
}

/// Picks the first device whose descriptor matches both IDs. Each entry is
/// the `(vendor_id, product_id)` of one attached device, or `None` where its
/// descriptor could not be read; such devices are skipped.
pub fn find_device(descriptors: &[Option<(u16, u16)>], vendor_id: u16, product_id: u16) -> (r: Option<usize>)
    ensures
        match r {
            Some(i) => is_first_match(descriptors@, vendor_id, product_id, i as int),
            None => forall|j: int| 0 <= j < descriptors@.len() ==> #[trigger] descriptors@[j] != Some((vendor_id, product_id)),
        },
{
    let mut i: usize = 0;
    while i < descriptors.len()
        invariant
            i <= descriptors@.len(),
            forall|j: int| 0 <= j < i ==> #[trigger] descriptors@[j] != Some((vendor_id, product_id)),
        decreases descriptors@.len() - i,
    {
        if let Some((v, p)) = descriptors[i] {
            if v == vendor_id && p == product_id {
                return Some(i);
            }
        }
        i = i + 1;
    }
    None
}

/// Where opening a device stands. Each state names the index of the chosen
/// device in the enumerated list once one is chosen.
#[derive(Clone, Copy, PartialEq, Eq, Debug, Structural)]
pub enum OpenState {
    /// Nothing done yet: the devices are to be listed.
    Unopened,
    /// A matching device was chosen: it is to be opened.
    Selected(usize),
    /// The device is open: its display interface is to be claimed.
    HandleOpen(usize),
    /// The interface is claimed: the display is ready for updates.
    Opened(usize),
    /// Opening failed for the given reason; nothing stays claimed.
    Failed(DeviceError),
}

/// What the outside world reported after the last step.
pub enum OpenEvent {
    /// The attached devices were listed: one entry per device, as in
    /// `find_device`.
    Listed(Vec<Option<(u16, u16)>>),
    /// The device list could not be obtained.
    ListFailed,
    /// The chosen device was opened.
    OpenSucceeded,
    /// The chosen device could not be opened.
    OpenFailed,
    /// The display interface was claimed.
    ClaimSucceeded,
    /// The display interface could not be claimed.
    ClaimFailed,
}

/// The state after listing `descriptors`: the first matching device is
/// chosen, or opening fails with `NotFound` when none matches.
pub open spec fn selection(descriptors: Seq<Option<(u16, u16)>>, vendor_id: u16, product_id: u16) -> OpenState {
    if exists|i: int| is_first_match(descriptors, vendor_id, product_id, i) {
        OpenState::Selected((choose|i: int| is_first_match(descriptors, vendor_id, product_id, i)) as usize)
    } else {
        OpenState::Failed(DeviceError::NotFound)
    }
}

/// The state that follows `s` when `e` is reported while opening the device
/// with the given IDs. An event that does not belong to the current state
/// leaves it unchanged.
pub open spec fn next_open_state(vendor_id: u16, product_id: u16, s: OpenState, e: OpenEvent) -> OpenState {
    match (s, e) {
        (OpenState::Unopened, OpenEvent::ListFailed) => OpenState::Failed(DeviceError::EnumerationError),
        (OpenState::Unopened, OpenEvent::Listed(d)) => selection(d@, vendor_id, product_id),
        (OpenState::Selected(_), OpenEvent::OpenFailed) => OpenState::Failed(DeviceError::OpenError),
        (OpenState::Selected(i), OpenEvent::OpenSucceeded) => OpenState::HandleOpen(i),
        (OpenState::HandleOpen(_), OpenEvent::ClaimFailed) => OpenState::Failed(DeviceError::ClaimError),
        (OpenState::HandleOpen(i), OpenEvent::ClaimSucceeded) => OpenState::Opened(i),
        _ => s,
    }
}

/// Takes one step of opening the device with the given IDs.
pub fn advance_open(vendor_id: u16, product_id: u16, s: OpenState, e: OpenEvent) -> (r: OpenState)
    ensures
        r == next_open_state(vendor_id, product_id, s, e),
{
    match (s, e) {
        (OpenState::Unopened, OpenEvent::ListFailed) => OpenState::Failed(DeviceError::EnumerationError),
        (OpenState::Unopened, OpenEvent::Listed(d)) => {
            match find_device(d.as_slice(), vendor_id, product_id) {
                Some(i) => {
                    proof {
                        assert forall|k: int| is_first_match(d@, vendor_id, product_id, k) implies k == i by {
                            if k < i {
                                assert(d@[k] != Some((vendor_id, product_id)));
                            } else if k > i {
                                assert(d@[i as int] != Some((vendor_id, product_id)));
                            }
                        }
                    }
                    OpenState::Selected(i)
                },
                None => OpenState::Failed(DeviceError::NotFound),
            }
        },
        (OpenState::Selected(_), OpenEvent::OpenFailed) => OpenState::Failed(DeviceError::OpenError),
        (OpenState::Selected(i), OpenEvent::OpenSucceeded) => OpenState::HandleOpen(i),
        (OpenState::HandleOpen(_), OpenEvent::ClaimFailed) => OpenState::Failed(DeviceError::ClaimError),
        (OpenState::HandleOpen(i), OpenEvent::ClaimSucceeded) => OpenState::Opened(i),
        _ => s,
    }
}

/// Opening with IDs that no listed device carries fails with `NotFound`.
pub proof fn lemma_unknown_ids_not_found(d: Vec<Option<(u16, u16)>>, vendor_id: u16, product_id: u16)
    requires
        forall|j: int| 0 <= j < d@.len() ==> #[trigger] d@[j] != Some((vendor_id, product_id)),
    ensures
        next_open_state(vendor_id, product_id, OpenState::Unopened, OpenEvent::Listed(d))
            == OpenState::Failed(DeviceError::NotFound),
{
}

/// Where a listed device carries the IDs and opening and claiming it both
/// succeed, the display ends up opened on the first such device.
pub proof fn lemma_present_device_opens(d: Vec<Option<(u16, u16)>>, vendor_id: u16, product_id: u16, i: usize)
    requires
        is_first_match(d@, vendor_id, product_id, i as int),
    ensures
        ({
            let s1 = next_open_state(vendor_id, product_id, OpenState::Unopened, OpenEvent::Listed(d));
            let s2 = next_open_state(vendor_id, product_id, s1, OpenEvent::OpenSucceeded);
            next_open_state(vendor_id, product_id, s2, OpenEvent::ClaimSucceeded) == OpenState::Opened(i)
        }),
{
    assert(is_first_match(d@, vendor_id, product_id, i as int));
    let k = choose|k: int| is_first_match(d@, vendor_id, product_id, k);
    if k < i {
        assert(d@[k] != Some((vendor_id, product_id)));
    } else if k > i {
        assert(d@[i as int] != Some((vendor_id, product_id)));
    }
    assert(k == i);
    assert(selection(d@, vendor_id, product_id) == OpenState::Selected(i));
}

} // verus!
