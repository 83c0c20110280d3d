//! The managed Clash profile that an import installs, and the decisions of
//! switching the VPN (TUN mode) on and off.
use vstd::prelude::*;

use crate::config::{strings_view, WireGuardConfig};
use crate::text::{chars_of, trim, trim_chars};

verus! {

/// The uid of the profile that the import manages.
pub const MANAGED_PROFILE_UID: &'static str = "kaif-vpnchik-managed";

/// The file of the profile that the import manages.
pub const MANAGED_PROFILE_FILE: &'static str = "kaif-vpnchik.yaml";

/// The display name of the profile that the import manages.
pub const MANAGED_PROFILE_NAME: &'static str = "kaif vpnchik";

// ---------------------------------------------------------------------------
// The answer to an import
// ---------------------------------------------------------------------------

/// What an import reports back.
pub struct WireGuardImportResult {
    pub profile_uid: String,
    pub profile_name: String,
    pub server: String,
    pub port: u16,
    pub replaced_existing: bool,
    pub warnings: Vec<String>,
}

pub struct ImportResultView {
    pub profile_uid: Seq<char>,
    pub profile_name: Seq<char>,
    pub server: Seq<char>,
    pub port: u16,
    pub replaced_existing: bool,
    pub warnings: Seq<Seq<char>>,
}

impl View for WireGuardImportResult {
    type V = ImportResultView;

    open spec fn view(&self) -> ImportResultView {
        ImportResultView {
            profile_uid: self.profile_uid@,
            profile_name: self.profile_name@,
            server: self.server@,
            port: self.port,
            replaced_existing: self.replaced_existing,
            warnings: strings_view(self.warnings@),
        }
    }
}

/// The report of an import of `config`: the managed profile, the server
/// and port of the tunnel, whether an earlier managed profile was replaced,
/// and no warnings.
pub fn import_result(config: &WireGuardConfig, replaced_existing: bool) -> (r: WireGuardImportResult)
    ensures
        r@ == (ImportResultView {
            profile_uid: MANAGED_PROFILE_UID@,
            profile_name: MANAGED_PROFILE_NAME@,
            server: config.server@,
            port: config.port,
            replaced_existing,
            warnings: Seq::empty(),
        }),
{
    let r = WireGuardImportResult {
        profile_uid: MANAGED_PROFILE_UID.to_owned(),
        profile_name: MANAGED_PROFILE_NAME.to_owned(),
        server: config.server.clone(),
        port: config.port,
        replaced_existing,
        warnings: Vec::new(),
    };
    assert(strings_view(r.warnings@) =~= Seq::<Seq<char>>::empty());
    r
}

// ---------------------------------------------------------------------------
// The profile list
// ---------------------------------------------------------------------------

/// An entry of the profile list, with the fields that the import sets.
#[derive(Debug, Clone, PartialEq, Eq)]
pub struct ProfileItem {
    pub uid: Option<String>,
    pub itype: Option<String>,
    pub name: Option<String>,
    pub file: Option<String>,
    pub desc: Option<String>,
    pub updated: Option<usize>,
}

pub struct ProfileItemView {
    pub uid: Option<Seq<char>>,
    pub itype: Option<Seq<char>>,
    pub name: Option<Seq<char>>,
    pub file: Option<Seq<char>>,
    pub desc: Option<Seq<char>>,
    pub updated: Option<usize>,
}

/// The text of an optional string.
pub open spec fn opt_view(o: Option<String>) -> Option<Seq<char>> {
    match o {
        Some(s) => Some(s@),
        None => None,
    }
}

impl View for ProfileItem {
    type V = ProfileItemView;

    open spec fn view(&self) -> ProfileItemView {
        ProfileItemView {
            uid: opt_view(self.uid),
            itype: opt_view(self.itype),
            name: opt_view(self.name),
            file: opt_view(self.file),
            desc: opt_view(self.desc),
            updated: self.updated,
        }
    }
}

/// The views of a list of profile entries.
pub open spec fn items_view(v: Seq<ProfileItem>) -> Seq<ProfileItemView> {
    v.map_values(|i: ProfileItem| i@)
}

/// The description of the managed profile: the imported file's name when
/// one was given and it is not blank.
pub open spec fn description_of(file_name: Option<Seq<char>>) -> Seq<char> {
    match file_name {
        Some(n) => if trim(n).len() > 0 {
            "Imported from "@ + n
        } else {
            "Imported WireGuard config"@
        },
        None => "Imported WireGuard config"@,
    }
}

/// The description of the managed profile for an import of `file_name`.
pub fn profile_description(file_name: Option<&str>) -> (r: String)
    ensures
        r@ == description_of(match file_name {
            Some(n) => Some(n@),
            None => None,
        }),
{
    match file_name {
        Some(n) => {
            let chars = chars_of(n);
            let t = trim_chars(chars.as_slice());
            if t.len() > 0 {
                let mut d = "Imported from ".to_owned();
                d.append(n);
                d
            } else {
                "Imported WireGuard config".to_owned()
            }
        },
        None => "Imported WireGuard config".to_owned(),
    }
}

/// The entry of the managed profile: a local profile stored in the managed
/// file, described after `file_name`, stamped with `updated`.
pub fn managed_profile_item(file_name: Option<&str>, updated: usize) -> (r: ProfileItem)
    ensures
        r@ == (ProfileItemView {
            uid: Some(MANAGED_PROFILE_UID@),
            itype: Some("local"@),
            name: Some(MANAGED_PROFILE_NAME@),
            file: Some(MANAGED_PROFILE_FILE@),
            desc: Some(
                description_of(
                    match file_name {
                        Some(n) => Some(n@),
                        None => None,
                    },
                ),
            ),
            updated: Some(updated),
        }),
{
    ProfileItem {
        uid: Some(MANAGED_PROFILE_UID.to_owned()),
        itype: Some("local".to_owned()),
        name: Some(MANAGED_PROFILE_NAME.to_owned()),
        file: Some(MANAGED_PROFILE_FILE.to_owned()),
        desc: Some(profile_description(file_name)),
        updated: Some(updated),
    }
}

/// An entry that belongs to the managed profile: it has the managed uid or
/// the managed file.
pub open spec fn is_managed(it: ProfileItemView) -> bool {
    it.uid == Some(MANAGED_PROFILE_UID@) || it.file == Some(MANAGED_PROFILE_FILE@)
}

/// The entries that do not belong to the managed profile, in order.
pub open spec fn unmanaged(items: Seq<ProfileItemView>) -> Seq<ProfileItemView>
    decreases items.len(),
{
    if items.len() == 0 {
        Seq::empty()
    } else {
        let r = unmanaged(items.drop_last());
        if is_managed(items.last()) {
            r
        } else {
            r.push(items.last())
        }
    }
}

/// The profile list and the selected profile.
pub struct ProfilesState {
    pub current: Option<String>,
    pub items: Option<Vec<ProfileItem>>,
}

/// The entries of a profile list that may be absent.
pub open spec fn state_items(items: Option<Vec<ProfileItem>>) -> Seq<ProfileItemView> {
    match items {
        Some(v) => items_view(v@),
        None => Seq::empty(),
    }
}

fn opt_is(o: &Option<String>, text: &str) -> (r: bool)
    ensures
        r == (opt_view(*o) == Some(text@)),
{
    match o {
        Some(s) => *s == text.to_owned(),
        None => false,
    }
}

fn managed(it: &ProfileItem) -> (r: bool)
    ensures
        r == is_managed(it@),
{
    opt_is(&it.uid, MANAGED_PROFILE_UID) || opt_is(&it.file, MANAGED_PROFILE_FILE)
}

/// Installs `item` as the managed profile: every entry with the managed uid
/// or file is dropped, `item` is appended, and the managed profile becomes
/// the selected one. Returns whether an entry was dropped.
pub fn install_managed_profile(state: &mut ProfilesState, item: ProfileItem) -> (replaced: bool)
    ensures
        state_items(final(state).items) == unmanaged(state_items(old(state).items)).push(item@),
        final(state).items is Some,
        opt_view(final(state).current) == Some(MANAGED_PROFILE_UID@),
        replaced == (unmanaged(state_items(old(state).items)).len() != state_items(
            old(state).items,
        ).len()),
{
    let ghost before = state_items(state.items);
    let mut old_items = match state.items.take() {
        Some(v) => v,
        None => Vec::new(),
    };
    assert(items_view(old_items@) == before);
    let before_len = old_items.len();
    let mut kept: Vec<ProfileItem> = Vec::new();
    let mut i: usize = 0;
    while old_items.len() > 0
        invariant
            i + old_items@.len() == before.len(),
            before_len == before.len(),
            items_view(old_items@) == before.skip(i as int),
            items_view(kept@) == unmanaged(before.take(i as int)),
            kept@.len() <= i,
        decreases old_items@.len(),
    {
        let ghost rest = old_items@;
        let it = old_items.remove(0);
        proof {
            assert(before.take(i + 1).drop_last() =~= before.take(i as int));
            assert(before[i as int] == it@) by {
                assert(items_view(rest)[0] == before.skip(i as int)[0]);
            }
            assert(items_view(old_items@) =~= before.skip(i + 1)) by {
                assert(old_items@ == rest.subrange(1, rest.len() as int));
                assert forall|j: int| 0 <= j < old_items@.len() implies items_view(old_items@)[j]
                    == before.skip(i + 1)[j] by {
                    assert(old_items@[j] == rest[j + 1]);
                    assert(items_view(rest)[j + 1] == before.skip(i as int)[j + 1]);
                }
            }
        }
        if !managed(&it) {
            let ghost k = items_view(kept@);
            kept.push(it);
            assert(items_view(kept@) =~= k.push(before[i as int]));
        }
        i = i + 1;
    }
    assert(before.take(i as int) =~= before);
    let replaced = before_len != kept.len();
    let ghost k = items_view(kept@);
    kept.push(item);
    assert(items_view(kept@) =~= k.push(item@));
    state.items = Some(kept);
    state.current = Some(MANAGED_PROFILE_UID.to_owned());
    replaced
}

/// Whether the profile list holds an entry with the managed uid (the
/// lookup of the managed profile by uid succeeds).
pub fn has_managed_profile(state: &ProfilesState) -> (r: bool)
    ensures
        r == exists|i: int|
            0 <= i < state_items(state.items).len() && (#[trigger] state_items(state.items)[i]).uid
                == Some(MANAGED_PROFILE_UID@),
{
    match &state.items {
        None => false,
        Some(v) => {
            let mut i: usize = 0;
            while i < v.len()
                invariant
                    i <= v@.len(),
                    state_items(state.items) == items_view(v@),
                    forall|j: int| 0 <= j < i ==> (#[trigger] items_view(v@)[j]).uid != Some(
                        MANAGED_PROFILE_UID@,
                    ),
                decreases v@.len() - i,
            {
                assert(items_view(v@)[i as int] == v@[i as int]@);
                if opt_is(&v[i].uid, MANAGED_PROFILE_UID) {
                    return true;
                }
                i = i + 1;
            }
            false
        },
    }
}

// ---------------------------------------------------------------------------
// Switching the VPN
// ---------------------------------------------------------------------------

/// The changes to the application settings that switching the VPN makes;
/// `None` leaves a setting as it is.
pub struct VergePatch {
    pub enable_system_proxy: Option<bool>,
    pub enable_tun_mode: Option<bool>,
}

/// Why the VPN cannot be switched on.
#[derive(Debug, Clone, Copy, PartialEq, Eq)]
pub enum VpnToggleError {
    /// No managed profile has been imported.
    ProfileMissing,
    /// TUN mode needs the helper service, which is not available.
    ServiceUnavailable,
}

impl VpnToggleError {
    /// The human-readable message for this error.
    pub fn message(&self) -> (r: String)
        ensures
            r@ == match *self {
                VpnToggleError::ProfileMissing => "Import a WireGuard .conf file first"@,
                VpnToggleError::ServiceUnavailable =>
                    "TUN mode requires the helper service. Please approve the macOS helper installation prompt and try again."@,
            },
    {
        match self {
            VpnToggleError::ProfileMissing => "Import a WireGuard .conf file first".to_owned(),
            VpnToggleError::ServiceUnavailable =>
                "TUN mode requires the helper service. Please approve the macOS helper installation prompt and try again.".to_owned(),
        }
    }
}

/// The next thing to do when switching the VPN.
pub enum VpnToggleStep {
    /// Refuse with this error.
    Refuse(VpnToggleError),
    /// Ask whether the application runs as administrator, then decide with
    /// `vpn_toggle_after_admin_check`.
    CheckAdmin,
    /// Ask whether the helper service is available, then decide with
    /// `vpn_toggle_after_service_check`.
    CheckService,
    /// Apply this patch to the settings.
    Apply(VergePatch),
}

/// The settings patch for switching the VPN on (TUN mode on, system proxy
/// off) or off (TUN mode off, system proxy untouched).
pub open spec fn patch_for(enable: bool) -> (Option<bool>, Option<bool>) {
    if enable {
        (Some(false), Some(true))
    } else {
        (None, Some(false))
    }
}

/// The settings patch for switching the VPN on or off.
pub fn verge_patch_for(enable: bool) -> (r: VergePatch)
    ensures
        (r.enable_system_proxy, r.enable_tun_mode) == patch_for(enable),
{
    if enable {
        VergePatch { enable_system_proxy: Some(false), enable_tun_mode: Some(true) }
    } else {
        VergePatch { enable_system_proxy: None, enable_tun_mode: Some(false) }
    }
}

/// The first decision of switching the VPN: switching on needs an imported
/// profile and then depends on the administrator rights; switching off
/// always goes ahead.
pub fn vpn_toggle_start(enable: bool, has_profile: bool) -> (r: VpnToggleStep)
    ensures
        enable && !has_profile ==> r == VpnToggleStep::Refuse(VpnToggleError::ProfileMissing),
        enable && has_profile ==> r is CheckAdmin,
        !enable ==> (r matches VpnToggleStep::Apply(p) && (p.enable_system_proxy,
        p.enable_tun_mode) == patch_for(false)),
{
    if enable && !has_profile {
        VpnToggleStep::Refuse(VpnToggleError::ProfileMissing)
    } else if enable {
        VpnToggleStep::CheckAdmin
    } else {
        VpnToggleStep::Apply(verge_patch_for(false))
    }
}

/// The decision after asking for administrator rights: switching on without
/// them needs the helper service; otherwise the patch is applied.
pub fn vpn_toggle_after_admin_check(enable: bool, is_admin: bool) -> (r: VpnToggleStep)
    ensures
        enable && !is_admin ==> r is CheckService,
        !(enable && !is_admin) ==> (r matches VpnToggleStep::Apply(p) && (p.enable_system_proxy,
        p.enable_tun_mode) == patch_for(enable)),
{
    if enable && !is_admin {
        VpnToggleStep::CheckService
    } else {
        VpnToggleStep::Apply(verge_patch_for(enable))
    }
}

/// The decision after asking for the helper service: go ahead when it is
/// available, refuse otherwise.
pub fn vpn_toggle_after_service_check(enable: bool, service_available: bool) -> (r: Result<
    VergePatch,
    VpnToggleError,
>)
    ensures
        service_available ==> (r matches Ok(p) && (p.enable_system_proxy, p.enable_tun_mode)
            == patch_for(enable)),
        !service_available ==> r == Err::<VergePatch, VpnToggleError>(
            VpnToggleError::ServiceUnavailable,
        ),
{
    if service_available {
        Ok(verge_patch_for(enable))
    } else {
        Err(VpnToggleError::ServiceUnavailable)
    }
}

} // verus!
