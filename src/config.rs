//! The configuration as the program reads it, the hotkeys it asks for, and
//! which output devices it opens.
use global_hotkey::hotkey::{Code, HotKey, Modifiers};
use vstd::prelude::*;

verus! {

#[verifier::external_type_specification]
#[verifier::external_body]
pub struct ExModifiers(Modifiers);

#[verifier::external_type_specification]
#[verifier::external_body]
pub struct ExCode(Code);

#[verifier::external_type_specification]
#[verifier::external_body]
pub struct ExHotKey(HotKey);

/// The shortcut that `HotKey::new` builds for these modifiers and this key.
pub uninterp spec fn hotkey_for(modifiers: Modifiers, key: Code) -> HotKey;

/// The identifier that a shortcut's events carry.
pub uninterp spec fn id_of(h: HotKey) -> u32;

/// Relies on `global_hotkey::hotkey::HotKey::id`, which returns the
/// identifier stored in the shortcut.
pub assume_specification[ HotKey::id ](h: &HotKey) -> (r: u32)
    ensures
        r == id_of(*h),
;

/// Relies on `global_hotkey::hotkey::HotKey::new`, which builds the
/// shortcut from these modifiers and this key alone, its identifier a hash
/// of the combination's text under an unseeded hasher.
#[verifier::external_body]
fn new_hotkey(modifiers: Modifiers, key: Code) -> (r: HotKey)
    ensures
        r == hotkey_for(modifiers, key),
{
    HotKey::new(Some(modifiers), key)
}

/// A key combination: modifier keys and one main key.
pub struct KeybindConfig {
    pub modifiers: Modifiers,
    pub key: Code,
}

/// One sound file, by its path relative to the configuration directory,
/// and the keys that play it.
pub struct SoundConfig {
    pub path: String,
    pub keybind: KeybindConfig,
}

/// The whole configuration: the sounds and the names of the output
/// devices to play them on.
pub struct Config {
    pub sounds: Vec<SoundConfig>,
    pub output_devices: Vec<String>,
}

impl KeybindConfig {
    /// The global shortcut for this key combination.
    pub fn hotkey(&self) -> (r: HotKey)
        ensures
            r == hotkey_for(self.modifiers, self.key),
    {
        new_hotkey(self.modifiers, self.key)
    }
}

impl Config {
    /// The shortcut of every sound, in the order of the sounds.
    pub fn hotkeys(&self) -> (r: Vec<HotKey>)
        ensures
            r.len() == self.sounds.len(),
            forall|j: int|
                0 <= j < r.len() ==> r@[j] == hotkey_for(
                    #[trigger] self.sounds@[j].keybind.modifiers,
                    self.sounds@[j].keybind.key,
                ),
    {
        let mut r: Vec<HotKey> = Vec::new();
        let mut i: usize = 0;
        while i < self.sounds.len()
            invariant
                i <= self.sounds.len(),
                r.len() == i,
                forall|j: int|
                    0 <= j < i ==> r@[j] == hotkey_for(
                        #[trigger] self.sounds@[j].keybind.modifiers,
                        self.sounds@[j].keybind.key,
                    ),
            decreases self.sounds.len() - i,
        {
            r.push(self.sounds[i].keybind.hotkey());
            i = i + 1;
        }
        r
    }
}

/// The identifier of each shortcut, in order.
pub fn hotkey_ids(hotkeys: &Vec<HotKey>) -> (r: Vec<u32>)
    ensures
        r.len() == hotkeys.len(),
        forall|j: int| 0 <= j < r.len() ==> r@[j] == id_of(#[trigger] hotkeys@[j]),
{
    let mut r: Vec<u32> = Vec::new();
    let mut i: usize = 0;
    while i < hotkeys.len()
        invariant
            i <= hotkeys.len(),
            r.len() == i,
            forall|j: int| 0 <= j < i ==> r@[j] == id_of(#[trigger] hotkeys@[j]),
        decreases hotkeys.len() - i,
    {
        r.push(hotkeys[i].id());
        i = i + 1;
    }
    r
}

/// Two sounds bound to the same key combination get the same shortcut and
/// the same identifier, so the registry is asked for one shortcut twice.
pub proof fn lemma_same_combination_same_id(sounds: Seq<SoundConfig>, i: int, j: int)
    requires
        0 <= i < sounds.len(),
        0 <= j < sounds.len(),
        sounds[i].keybind.modifiers == sounds[j].keybind.modifiers,
        sounds[i].keybind.key == sounds[j].keybind.key,
    ensures
        hotkey_for(sounds[i].keybind.modifiers, sounds[i].keybind.key) == hotkey_for(
            sounds[j].keybind.modifiers,
            sounds[j].keybind.key,
        ),
        id_of(hotkey_for(sounds[i].keybind.modifiers, sounds[i].keybind.key)) == id_of(
            hotkey_for(sounds[j].keybind.modifiers, sounds[j].keybind.key),
        ),
{
}

/// Whether `name` is among `names`.
pub open spec fn listed(names: Seq<String>, name: Seq<char>) -> bool {
    exists|j: int| 0 <= j < names.len() && names[j]@ == name
}

/// The positions in `available`, among its first `k`, of the devices
/// whose names are listed in `wanted`, in order.
pub open spec fn selected(available: Seq<String>, wanted: Seq<String>, k: nat) -> Seq<usize>
    decreases k,
{
    if k == 0 {
        Seq::empty()
    } else {
        let before = selected(available, wanted, (k - 1) as nat);
        if listed(wanted, available[k - 1]@) {
            before.push((k - 1) as usize)
        } else {
            before
        }
    }
}

/// Whether `wanted` lists `name`.
pub fn is_listed(wanted: &Vec<String>, name: &String) -> (r: bool)
    ensures
        r == listed(wanted@, name@),
{
    let mut j: usize = 0;
    while j < wanted.len()
        invariant
            j <= wanted.len(),
            forall|i: int| 0 <= i < j ==> wanted@[i]@ != name@,
        decreases wanted.len() - j,
    {
        if wanted[j] == *name {
            return true;
        }
        j = j + 1;
    }
    false
}

/// The positions of the available devices to open: those whose names the
/// configuration lists, in the order the devices are available. A listed
/// name that no device has is passed over.
pub fn select_devices(available: &Vec<String>, wanted: &Vec<String>) -> (r: Vec<usize>)
    ensures
        r@ == selected(available@, wanted@, available.len() as nat),
{
    let mut r: Vec<usize> = Vec::new();
    let mut k: usize = 0;
    while k < available.len()
        invariant
            k <= available.len(),
            r@ == selected(available@, wanted@, k as nat),
        decreases available.len() - k,
    {
        if is_listed(wanted, &available[k]) {
            r.push(k);
        }
        k = k + 1;
    }
    r
}

/// Every selected device is available and listed, each is taken once, and
/// every available device that is listed is taken.
pub proof fn lemma_selection_exact(available: Seq<String>, wanted: Seq<String>, k: nat)
    requires
        k <= available.len(),
        available.len() <= usize::MAX + 1,
    ensures
        selected(available, wanted, k).no_duplicates(),
        forall|i: int|
            0 <= i < selected(available, wanted, k).len() ==> #[trigger] selected(
                available,
                wanted,
                k,
            )[i] < k && listed(wanted, available[selected(available, wanted, k)[i] as int]@),
        forall|d: int|
            0 <= d < k && listed(wanted, (#[trigger] available[d])@) ==> selected(
                available,
                wanted,
                k,
            ).contains(d as usize),
    decreases k,
{
    if k > 0 {
        lemma_selection_exact(available, wanted, (k - 1) as nat);
        let before = selected(available, wanted, (k - 1) as nat);
        let now = selected(available, wanted, k);
        assert forall|d: int| 0 <= d < k && listed(wanted, (#[trigger] available[d])@) implies now.contains(
            d as usize,
        ) by {
            if d < k - 1 {
                let j = choose|j: int| 0 <= j < before.len() && before[j] == d as usize;
                if listed(wanted, available[k - 1]@) {
                    assert(now[j] == d as usize);
                }
            } else {
                assert(now[now.len() - 1] == d as usize);
            }
        }
    }
}

} // verus!
