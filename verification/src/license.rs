//! Whether searching is allowed: by a license for this machine, or during the
//! trial that begins with the installation.

use crate::bytes::{as_signed, to_signed};
use crate::error::AppError;
use crate::indexer::scanner::text_view;
use crate::storage::database::LicenseRow;
use crate::text::{decimal, decimal_i64, decimal_u64, trim_chars, trimmed};
use chrono::{Local, TimeZone};
use jsonwebtoken::{Algorithm, DecodingKey, Validation};
use vstd::prelude::*;

verus! {

/// Days of the trial.
pub const TRIAL_DAYS: i64 = 30;

/// Seconds by which a license may be past its end.
pub const LEEWAY_SECS: u64 = 60;

/// The first second that has a date, in seconds since the Unix epoch.
pub const FIRST_DATE_SECS: i64 = -8_334_601_228_800;

/// The last second that has a date: the end of the year 262142.
pub const LAST_DATE_SECS: i64 = 8_210_266_876_799;

/// Whether a time in seconds since the Unix epoch can be written as a date.
pub open spec fn has_date(seconds: i64) -> bool {
    FIRST_DATE_SECS <= seconds <= LAST_DATE_SECS
}

/// Seconds of a day.
pub const DAY_SECS: i64 = 86_400;

/// What a license says.
#[derive(Clone, Debug)]
pub struct LicenseClaims {
    pub sub: String,
    /// The end of the license, in seconds since the Unix epoch.
    pub exp: usize,
    pub iat: usize,
    pub is_permanent: bool,
    pub machine_id: String,
}

/// The state of the license as the client sees it.
#[derive(Clone, Debug)]
pub struct LicenseStatusResponse {
    /// `trial`, `valid`, `permanent` or `expired`.
    pub status: String,
    pub message: String,
    pub trial_days_total: i64,
    pub trial_days_used: i64,
    pub trial_days_left: i64,
    pub expires_at: Option<String>,
    pub customer: Option<String>,
    pub machine_id: String,
    pub search_allowed: bool,
}

/// The state of the license.
#[derive(Clone, Debug)]
pub struct LicenseState {
    pub status: String,
    pub message: String,
    pub trial_days_used: i64,
    pub trial_days_left: i64,
    pub expires_at: Option<i64>,
    pub customer: Option<String>,
    pub search_allowed: bool,
}

/// The id of this machine, or what stands for it where it cannot be had.
pub fn machine_id_or_unknown(id: Option<String>) -> (r: String)
    ensures
        r@ == match id {
            Some(i) => i@,
            None => "UNKNOWN-MACHINE-ID"@,
        },
{
    match id {
        Some(i) => i,
        None => "UNKNOWN-MACHINE-ID".to_owned(),
    }
}

/// What is said of a valid license; `until` is its end as a date, where it can be
/// written as one.
pub open spec fn license_message(claims: LicenseClaims, until: Option<Seq<char>>) -> Seq<char> {
    if claims.is_permanent {
        "许可有效："@ + claims.sub@ + "（永久）"@
    } else {
        "许可有效："@ + claims.sub@ + "（有效期至 "@ + (match until {
            Some(t) => t,
            None => decimal(claims.exp as int),
        }) + "）"@
    }
}

/// Whether `date` is what a time reads as in the local time zone; nothing where it
/// cannot be written as a date.
pub closed spec fn may_read_as(seconds: i64, date: Option<Seq<char>>) -> bool {
    exists|r: Option<String>| #[trigger]
        call_ensures(local_date, (seconds,), r) && text_view(r) == date
}

/// Whether `until` is the end of a license as a date of the local time zone: there is
/// one exactly where the end can be written as a date.
pub open spec fn is_end_of(until: Option<Seq<char>>, claims: LicenseClaims) -> bool {
    &&& may_read_as(as_signed(claims.exp as u64), until)
    &&& until is Some <==> has_date(as_signed(claims.exp as u64))
}

/// Accepts a license whose signature and end have been checked, where it is for
/// this machine, with what is said of it.
pub fn accept_claims(claims: LicenseClaims, machine_id: &String, until: Option<String>) -> (r:
    Option<(LicenseClaims, String)>)
    ensures
        r is Some <==> claims.machine_id@ == machine_id@,
        r is Some ==> r->Some_0.0 == claims && r->Some_0.1@ == license_message(
            claims,
            text_view(until),
        ),
{
    if claims.machine_id != *machine_id {
        return None;
    }
    let mut msg = "许可有效：".to_owned();
    msg.append(claims.sub.as_str());
    if claims.is_permanent {
        msg.append("（永久）");
    } else {
        msg.append("（有效期至 ");
        let text = match until {
            Some(t) => t,
            None => decimal_u64(claims.exp as u64),
        };
        msg.append(text.as_str());
        msg.append("）");
    }
    Some((claims, msg))
}

/// What a license says, with its texts as character sequences.
pub open spec fn claims_view(c: LicenseClaims) -> (Seq<char>, usize, usize, bool, Seq<char>) {
    (c.sub@, c.exp, c.iat, c.is_permanent, c.machine_id@)
}

/// What a key says: its subject, end, time of issue, whether it is permanent, and
/// the machine that it is for. Nothing where it is not signed by the holder of the
/// secret that belongs to the public key, does not say all of this, or is refused
/// whatever the clock says.
pub uninterp spec fn signed_claims(license_key: Seq<char>, public_key: Seq<u8>) -> Option<
    (Seq<char>, usize, usize, bool, Seq<char>),
>;

/// Whether a license that ends at `exp` ends at no time that a clock can show, where
/// clocks count seconds since the Unix epoch and run `leeway` seconds late: a license
/// that is meant to last forever has such an end.
pub open spec fn never_ends(exp: usize, leeway: u64) -> bool {
    exp + leeway >= u64::MAX
}

/// `jsonwebtoken::decode` with the algorithm EdDSA and a public key in PEM. What is
/// handed out is what the key says, and its signature fits the public key. The end
/// of the license is held against the clock of the machine, `leeway` seconds late,
/// so a key that is signed may be refused; one that never ends is accepted. When
/// another is accepted rests on the clock and is not claimed. The clock is taken to
/// be at least a minute past the Unix epoch. A field that is repeated counts by its
/// last value.
#[verifier::external_body]
fn decode_key(license_key: &str, public_key: &Vec<u8>, leeway: u64) -> (r: Option<LicenseClaims>)
    requires
        leeway <= 60,
    ensures
        r is Some ==> signed_claims(license_key@, public_key@) == Some(claims_view(r->Some_0)),
        match signed_claims(license_key@, public_key@) {
            Some(c) => never_ends(c.1, leeway) ==> r is Some,
            None => r is None,
        },
{
    let key = DecodingKey::from_ed_pem(public_key).ok()?;
    let mut validation = Validation::new(Algorithm::EdDSA);
    validation.validate_exp = true;
    validation.leeway = leeway;
    let c = jsonwebtoken::decode::<serde_json::Value>(license_key, &key, &validation).ok()?.claims;
    Some(LicenseClaims {
        sub: c.get("sub")?.as_str()?.to_string(),
        exp: usize::try_from(c.get("exp")?.as_u64()?).ok()?,
        iat: usize::try_from(c.get("iat")?.as_u64()?).ok()?,
        is_permanent: c.get("is_permanent")?.as_bool()?,
        machine_id: c.get("machine_id")?.as_str()?.to_string(),
    })
}

/// `chrono`'s `Local.timestamp_opt`, and `to_rfc3339` on what it gives: there is a date
/// exactly where the time is within the range of dates. How it reads depends on the
/// time zone of the machine and is not claimed.
#[verifier::external_body]
fn local_date(seconds: i64) -> (r: Option<String>)
    ensures
        r is Some <==> has_date(seconds),
{
    Local.timestamp_opt(seconds, 0).single().map(|d| d.to_rfc3339())
}

/// Whether a key can be found, at some time, to say `decoded`; `None` where it is
/// refused.
pub closed spec fn may_decode_to(
    license_key: Seq<char>,
    public_key: Seq<u8>,
    decoded: Option<LicenseClaims>,
) -> bool {
    exists|key: &str, pem: &Vec<u8>|
        key@ == license_key && pem@ == public_key && #[trigger] call_ensures(
            decode_key,
            (key, pem, LEEWAY_SECS),
            decoded,
        )
}

/// What is accepted of a key that was found to say `decoded`: all of it, where it is
/// for this machine.
pub open spec fn admitted(decoded: Option<LicenseClaims>, machine_id: Seq<char>) -> Option<
    LicenseClaims,
> {
    match decoded {
        Some(c) if c.machine_id@ == machine_id => Some(c),
        _ => None,
    }
}

/// Verifies a key: it has to be signed, not past its end, and for this machine. With
/// it comes what is said of it, in which the end is a date of the local time zone. A
/// key that never ends is good on its machine whatever the clock says; when another
/// is past its end the clock decides.
pub fn verify_license_key(license_key: &str, public_key: &Vec<u8>, machine_id: &String) -> (r:
    Option<(LicenseClaims, String)>)
    ensures
        r is Some ==> {
            let claims = r->Some_0.0;
            &&& signed_claims(license_key@, public_key@) == Some(claims_view(claims))
            &&& claims.machine_id@ == machine_id@
            &&& exists|until: Option<Seq<char>>|
                #[trigger] is_end_of(until, claims) && r->Some_0.1@ == license_message(
                    claims,
                    until,
                )
        },
        match signed_claims(license_key@, public_key@) {
            Some(c) => if c.4 != machine_id@ {
                r is None
            } else {
                never_ends(c.1, LEEWAY_SECS) ==> r is Some
            },
            None => r is None,
        },
        exists|decoded: Option<LicenseClaims>| #[trigger]
            may_decode_to(license_key@, public_key@, decoded) && admitted(decoded, machine_id@)
                == match r {
                Some(v) => Some(v.0),
                None => None,
            },
{
    let decoded = decode_key(license_key, public_key, LEEWAY_SECS);
    assert(may_decode_to(license_key@, public_key@, decoded));
    match decoded {
        None => None,
        Some(claims) => {
            let until = local_date(to_signed(claims.exp as u64));
            assert(is_end_of(text_view(until), claims));
            accept_claims(claims, machine_id, until)
        },
    }
}

/// Whether `s` is the state under a valid license.
pub open spec fn is_licensed(s: LicenseState, claims: LicenseClaims, message: Seq<char>) -> bool {
    &&& s.status@ == if claims.is_permanent {
        "permanent"@
    } else {
        "valid"@
    }
    &&& s.message@ == message
    &&& s.trial_days_used == 0
    &&& s.trial_days_left == 0
    &&& s.expires_at == if claims.is_permanent {
        None::<i64>
    } else {
        Some(as_signed(claims.exp as u64))
    }
    &&& text_view(s.customer) == Some(claims.sub@)
    &&& s.search_allowed
}

/// The state under a valid license.
pub fn licensed_state(claims: LicenseClaims, message: String) -> (r: LicenseState)
    ensures
        is_licensed(r, claims, message@),
{
    let permanent: bool = claims.is_permanent;
    LicenseState {
        status: if permanent {
            "permanent".to_owned()
        } else {
            "valid".to_owned()
        },
        message,
        trial_days_used: 0,
        trial_days_left: 0,
        expires_at: if permanent {
            None
        } else {
            Some(to_signed(claims.exp as u64))
        },
        customer: Some(claims.sub),
        search_allowed: true,
    }
}

/// Whole days since the installation; none before it.
pub open spec fn days_since(started: int, now: int) -> int {
    if now <= started {
        0
    } else {
        (now - started) / DAY_SECS as int
    }
}

/// Whether `s` is the state without a license, `days` days after the installation.
pub open spec fn is_trial(s: LicenseState, days: int) -> bool {
    &&& s.expires_at is None
    &&& s.customer is None
    &&& if days < TRIAL_DAYS {
        &&& s.status@ == "trial"@
        &&& s.message@ == "试用中：已使用 "@ + decimal(days) + " 天，剩余 "@ + decimal(
            TRIAL_DAYS - days,
        ) + " 天"@
        &&& s.trial_days_used == days
        &&& s.trial_days_left == TRIAL_DAYS - days
        &&& s.search_allowed
    } else {
        &&& s.status@ == "expired"@
        &&& s.message@ == "许可失效：试用期已结束，请输入有效许可"@
        &&& s.trial_days_used == TRIAL_DAYS
        &&& s.trial_days_left == 0
        &&& !s.search_allowed
    }
}

/// The state without a license.
pub fn trial_state(started: i64, now: i64) -> (r: LicenseState)
    requires
        i64::MIN <= now - started <= i64::MAX,
    ensures
        is_trial(r, days_since(started as int, now as int)),
{
    let passed: i64 = now - started;
    let days: i64 = if passed <= 0 {
        0
    } else {
        passed / DAY_SECS
    };
    if days < TRIAL_DAYS {
        let left: i64 = TRIAL_DAYS - days;
        let mut msg = "试用中：已使用 ".to_owned();
        let used_text = decimal_i64(days);
        let left_text = decimal_i64(left);
        msg.append(used_text.as_str());
        msg.append(" 天，剩余 ");
        msg.append(left_text.as_str());
        msg.append(" 天");
        return LicenseState {
            status: "trial".to_owned(),
            message: msg,
            trial_days_used: days,
            trial_days_left: left,
            expires_at: None,
            customer: None,
            search_allowed: true,
        };
    }
    LicenseState {
        status: "expired".to_owned(),
        message: "许可失效：试用期已结束，请输入有效许可".to_owned(),
        trial_days_used: TRIAL_DAYS,
        trial_days_left: 0,
        expires_at: None,
        customer: None,
        search_allowed: false,
    }
}

/// Whether a row holds a key.
pub open spec fn has_key(row: LicenseRow) -> bool {
    row.license_key is Some && trimmed(row.license_key->Some_0@).len() > 0
}

/// The key that a row holds, to be verified; a blank one is none.
pub fn key_to_verify(row: &LicenseRow) -> (r: Option<String>)
    ensures
        r is Some <==> has_key(*row),
        r is Some ==> r->Some_0 == row.license_key->Some_0,
{
    match &row.license_key {
        None => None,
        Some(key) => {
            let t = trim_chars(key.as_str());
            if t.len() == 0 {
                None
            } else {
                Some(key.clone())
            }
        },
    }
}

/// The state of the license: `verified` is what became of the key that the row
/// holds, if it holds one and that is valid.
pub fn evaluate(row: &LicenseRow, verified: Option<(LicenseClaims, String)>, now: i64) -> (r: Result<
    LicenseState,
    AppError,
>)
    requires
        i64::MIN <= now - row.install_started_at <= i64::MAX,
    ensures
        r is Err <==> trimmed(row.install_fingerprint@).len() == 0,
        r is Err ==> r->Err_0 is Config && r->Err_0->Config_0@
            == "install_fingerprint 初始化失败"@,
        r is Ok ==> if has_key(*row) && verified is Some {
            is_licensed(r->Ok_0, verified->Some_0.0, verified->Some_0.1@)
        } else {
            is_trial(r->Ok_0, days_since(row.install_started_at as int, now as int))
        },
{
    let fingerprint = trim_chars(row.install_fingerprint.as_str());
    if fingerprint.len() == 0 {
        return Err(AppError::Config("install_fingerprint 初始化失败".to_owned()));
    }
    if key_to_verify(row).is_some() {
        if let Some((claims, message)) = verified {
            return Ok(licensed_state(claims, message));
        }
    }
    Ok(trial_state(row.install_started_at, now))
}

/// The state after a key has been entered: refused unless it is valid.
pub fn save_license_key(verified: Option<(LicenseClaims, String)>) -> (r: Result<
    LicenseState,
    AppError,
>)
    ensures
        match verified {
            Some((claims, message)) => r is Ok && is_licensed(r->Ok_0, claims, message@),
            None => r is Err && r->Err_0 is InvalidRequest && r->Err_0->InvalidRequest_0@
                == "许可无效或已过期"@,
        },
{
    match verified {
        Some((claims, message)) => Ok(licensed_state(claims, message)),
        None => Err(AppError::InvalidRequest("许可无效或已过期".to_owned())),
    }
}

/// Whether `s` is the state under a license that the key says, for this machine.
pub open spec fn is_licensed_by(
    s: LicenseState,
    license_key: Seq<char>,
    public_key: Seq<u8>,
    machine_id: Seq<char>,
) -> bool {
    exists|claims: LicenseClaims, until: Option<Seq<char>>|
        {
            &&& signed_claims(license_key, public_key) == Some(claims_view(claims))
            &&& claims.machine_id@ == machine_id
            &&& #[trigger] is_end_of(until, claims)
            &&& is_licensed(s, claims, license_message(claims, until))
        }
}

/// Whether `s` is the state under a license that says `claims`.
pub open spec fn is_licensed_with(s: LicenseState, claims: LicenseClaims) -> bool {
    exists|until: Option<Seq<char>>| #[trigger]
        is_end_of(until, claims) && is_licensed(s, claims, license_message(claims, until))
}

/// The state of the license that a row holds: that of the key, where the row holds a
/// valid one, and that of the trial otherwise.
pub fn evaluate_row(row: &LicenseRow, public_key: &Vec<u8>, machine_id: &String, now: i64) -> (r:
    Result<LicenseState, AppError>)
    requires
        i64::MIN <= now - row.install_started_at <= i64::MAX,
    ensures
        r is Err <==> trimmed(row.install_fingerprint@).len() == 0,
        r is Err ==> r->Err_0 is Config && r->Err_0->Config_0@
            == "install_fingerprint 初始化失败"@,
        r is Ok ==> is_trial(r->Ok_0, days_since(row.install_started_at as int, now as int))
            || has_key(*row) && is_licensed_by(
            r->Ok_0,
            row.license_key->Some_0@,
            public_key@,
            machine_id@,
        ),
        r is Ok && has_key(*row) ==> match signed_claims(row.license_key->Some_0@, public_key@) {
            Some(c) => if c.4 != machine_id@ {
                is_trial(r->Ok_0, days_since(row.install_started_at as int, now as int))
            } else {
                never_ends(c.1, LEEWAY_SECS) ==> is_licensed_by(
                    r->Ok_0,
                    row.license_key->Some_0@,
                    public_key@,
                    machine_id@,
                )
            },
            None => is_trial(r->Ok_0, days_since(row.install_started_at as int, now as int)),
        },
        r is Ok && has_key(*row) ==> exists|decoded: Option<LicenseClaims>| #[trigger]
            may_decode_to(row.license_key->Some_0@, public_key@, decoded) && match admitted(
                decoded,
                machine_id@,
            ) {
                Some(claims) => is_licensed_with(r->Ok_0, claims),
                None => is_trial(
                    r->Ok_0,
                    days_since(row.install_started_at as int, now as int),
                ),
            },
        r is Ok && !has_key(*row) ==> is_trial(
            r->Ok_0,
            days_since(row.install_started_at as int, now as int),
        ),
{
    let verified = match key_to_verify(row) {
        Some(key) => verify_license_key(key.as_str(), public_key, machine_id),
        None => None,
    };
    evaluate(row, verified, now)
}

/// The state after a key has been entered.
pub fn enter_license_key(license_key: &str, public_key: &Vec<u8>, machine_id: &String) -> (r: Result<
    LicenseState,
    AppError,
>)
    ensures
        match r {
            Ok(s) => is_licensed_by(s, license_key@, public_key@, machine_id@),
            Err(e) => e is InvalidRequest && e->InvalidRequest_0@ == "许可无效或已过期"@,
        },
        match signed_claims(license_key@, public_key@) {
            Some(c) => if c.4 != machine_id@ {
                r is Err
            } else {
                never_ends(c.1, LEEWAY_SECS) ==> r is Ok
            },
            None => r is Err,
        },
        exists|decoded: Option<LicenseClaims>| #[trigger]
            may_decode_to(license_key@, public_key@, decoded) && match admitted(
                decoded,
                machine_id@,
            ) {
                Some(claims) => r is Ok && is_licensed_with(r->Ok_0, claims),
                None => r is Err,
            },
{
    save_license_key(verify_license_key(license_key, public_key, machine_id))
}

/// When a state was validated: a license now, a trial never.
pub fn validated_at(state: &LicenseState, now: i64) -> (r: Option<i64>)
    ensures
        r == if state.customer is Some {
            Some(now)
        } else {
            None::<i64>
        },
{
    if state.customer.is_some() {
        Some(now)
    } else {
        None
    }
}

/// The state of the license as the client sees it; `expires_text` is its end as a
/// date, where it has one that can be written so.
pub fn describe_state(state: &LicenseState, expires_text: Option<String>, machine_id: String) -> (r:
    LicenseStatusResponse)
    ensures
        r.status == state.status,
        r.message == state.message,
        r.trial_days_total == TRIAL_DAYS,
        r.trial_days_used == state.trial_days_used,
        r.trial_days_left == state.trial_days_left,
        r.expires_at == if state.expires_at is Some {
            expires_text
        } else {
            None::<String>
        },
        text_view(r.customer) == text_view(state.customer),
        r.machine_id == machine_id,
        r.search_allowed == state.search_allowed,
{
    let customer = match &state.customer {
        Some(c) => Some(c.clone()),
        None => None,
    };
    LicenseStatusResponse {
        status: state.status.clone(),
        message: state.message.clone(),
        trial_days_total: TRIAL_DAYS,
        trial_days_used: state.trial_days_used,
        trial_days_left: state.trial_days_left,
        expires_at: if state.expires_at.is_some() {
            expires_text
        } else {
            None
        },
        customer,
        machine_id,
        search_allowed: state.search_allowed,
    }
}

/// The state of the license as the client sees it, with its end as a date of the
/// local time zone, where it has one that can be written so.
pub fn to_response(state: &LicenseState, machine_id: String) -> (r: LicenseStatusResponse)
    ensures
        r.status == state.status,
        r.message == state.message,
        r.trial_days_total == TRIAL_DAYS,
        r.trial_days_used == state.trial_days_used,
        r.trial_days_left == state.trial_days_left,
        match state.expires_at {
            Some(seconds) => may_read_as(seconds, text_view(r.expires_at)) && (r.expires_at is Some
                <==> has_date(seconds)),
            None => r.expires_at is None,
        },
        text_view(r.customer) == text_view(state.customer),
        r.machine_id == machine_id,
        r.search_allowed == state.search_allowed,
{
    let text = match state.expires_at {
        Some(seconds) => local_date(seconds),
        None => None,
    };
    describe_state(state, text, machine_id)
}

/// Without a license searching is allowed for exactly thirty days, and on each of
/// them the days used and the days left make thirty.
pub proof fn trial_lasts_thirty_days(s: LicenseState, started: int, now: int)
    requires
        is_trial(s, days_since(started, now)),
    ensures
        s.search_allowed <==> now < started + 30 * 86_400,
        s.trial_days_used + s.trial_days_left == TRIAL_DAYS,
        0 <= s.trial_days_left,
{
    if now > started {
        let d = (now - started) / 86_400;
        assert(d * 86_400 <= now - started < (d + 1) * 86_400) by (nonlinear_arith)
            requires
                d == (now - started) / 86_400,
        ;
    }
}

// ── Laws of the license ─────────────────────────────────────────────────────

/// The trial lasts thirty days of 86400 seconds: searching is allowed until then, the
/// days that are shown as used are the whole days since the installation, and together
/// with those left they are thirty.
pub proof fn the_trial_is_thirty_days(started: i64, now: i64, r: LicenseState)
    requires
        i64::MIN <= now - started <= i64::MAX,
        call_ensures(trial_state, (started, now), r),
    ensures
        r.search_allowed <==> now - started < 2_592_000,
        r.trial_days_used + r.trial_days_left == 30,
        now <= started ==> r.trial_days_used == 0,
        started <= now < started + 2_592_000 ==> r.trial_days_used * 86_400 <= now - started < (
        r.trial_days_used + 1) * 86_400,
        now >= started + 2_592_000 ==> r.trial_days_used == 30,
        r.status@ == if r.search_allowed {
            "trial"@
        } else {
            "expired"@
        },
        r.expires_at is None,
        r.customer is None,
{
    trial_lasts_thirty_days(r, started as int, now as int);
    if started < now {
        let d = now - started;
        assert((d / 86_400) * 86_400 <= d < (d / 86_400 + 1) * 86_400) by (nonlinear_arith);
    }
}

/// Whether a state is that of a customer whose license ends at `exp`, or never.
pub open spec fn shows_license(s: LicenseState, claims: LicenseClaims, message: Seq<char>) -> bool {
    &&& s.search_allowed
    &&& s.customer is Some && s.customer->Some_0@ == claims.sub@
    &&& s.message@ == message
    &&& claims.is_permanent ==> s.status@ == "permanent"@ && s.expires_at is None
    &&& !claims.is_permanent ==> s.status@ == "valid"@ && s.expires_at is Some
    &&& !claims.is_permanent && claims.exp <= i64::MAX ==> s.expires_at->Some_0 == claims.exp
    &&& s.trial_days_used == 0 && s.trial_days_left == 0
}

/// Under a valid key searching is allowed, whenever the installation was, and the state
/// shows whose license it is and until when.
pub proof fn valid_keys_allow_searching(
    row: &LicenseRow,
    verified: Option<(LicenseClaims, String)>,
    now: i64,
    r: Result<LicenseState, AppError>,
)
    requires
        i64::MIN <= now - row.install_started_at <= i64::MAX,
        call_ensures(evaluate, (row, verified, now), r),
        crate::text::holds_text(row.install_fingerprint@),
        row.license_key is Some,
        crate::text::holds_text(row.license_key->Some_0@),
        verified is Some,
    ensures
        r is Ok,
        shows_license(r->Ok_0, verified->Some_0.0, verified->Some_0.1@),
{
    crate::text::blank_texts_trim_to_nothing(row.install_fingerprint@);
    crate::text::blank_texts_trim_to_nothing(row.license_key->Some_0@);
}

/// Without a key, with a blank one or with one that is not valid, the trial counts. An
/// installation without a fingerprint is refused with either.
pub proof fn without_a_valid_key_the_trial_counts(
    row: &LicenseRow,
    verified: Option<(LicenseClaims, String)>,
    now: i64,
    r: Result<LicenseState, AppError>,
)
    requires
        i64::MIN <= now - row.install_started_at <= i64::MAX,
        call_ensures(evaluate, (row, verified, now), r),
    ensures
        r is Ok <==> crate::text::holds_text(row.install_fingerprint@),
        r is Err ==> r->Err_0 is Config,
        r is Ok && (verified is None || row.license_key is None || !crate::text::holds_text(
            row.license_key->Some_0@,
        )) ==> {
            let s = r->Ok_0;
            &&& s.search_allowed <==> now - row.install_started_at < 2_592_000
            &&& s.customer is None
            &&& s.expires_at is None
            &&& s.trial_days_used + s.trial_days_left == 30
        },
{
    crate::text::blank_texts_trim_to_nothing(row.install_fingerprint@);
    if row.license_key is Some {
        crate::text::blank_texts_trim_to_nothing(row.license_key->Some_0@);
    }
    if r is Ok && is_trial(
        r->Ok_0,
        days_since(row.install_started_at as int, now as int),
    ) {
        trial_lasts_thirty_days(r->Ok_0, row.install_started_at as int, now as int);
    }
}

/// A license is accepted on its own machine alone, and what is said of it names the
/// customer and, unless it is permanent, its end.
pub proof fn licenses_are_for_one_machine(
    claims: LicenseClaims,
    machine_id: &String,
    until: Option<String>,
    r: Option<(LicenseClaims, String)>,
)
    requires
        call_ensures(accept_claims, (claims, machine_id, until), r),
    ensures
        claims.machine_id@ != machine_id@ ==> r is None,
        claims.machine_id@ == machine_id@ ==> r is Some && r->Some_0.0 == claims,
        r is Some && claims.is_permanent ==> r->Some_0.1@ == "许可有效："@ + claims.sub@
            + "（永久）"@,
        r is Some && !claims.is_permanent && until is Some ==> r->Some_0.1@ == "许可有效："@
            + claims.sub@ + "（有效期至 "@ + until->Some_0@ + "）"@,
        r is Some && !claims.is_permanent && until is None ==> r->Some_0.1@ == "许可有效："@
            + claims.sub@ + "（有效期至 "@ + decimal(claims.exp as int) + "）"@,
{
}

/// A key that is entered is kept exactly where it is valid.
pub proof fn only_valid_keys_are_saved(
    verified: Option<(LicenseClaims, String)>,
    r: Result<LicenseState, AppError>,
)
    requires
        call_ensures(save_license_key, (verified,), r),
    ensures
        r is Ok <==> verified is Some,
        r is Ok ==> shows_license(r->Ok_0, verified->Some_0.0, verified->Some_0.1@),
        r is Err ==> r->Err_0 is InvalidRequest,
{
}

/// A key in the database counts where its signature fits and it is for this machine:
/// one that never ends allows searching for good, and one that does not fit, or is for
/// another machine, changes nothing about the trial.
pub proof fn stored_keys_count_on_their_machine(
    row: &LicenseRow,
    public_key: &Vec<u8>,
    machine_id: &String,
    now: i64,
    r: Result<LicenseState, AppError>,
)
    requires
        i64::MIN <= now - row.install_started_at <= i64::MAX,
        call_ensures(evaluate_row, (row, public_key, machine_id, now), r),
        crate::text::holds_text(row.install_fingerprint@),
        row.license_key is Some,
        crate::text::holds_text(row.license_key->Some_0@),
    ensures
        r is Ok,
        match signed_claims(row.license_key->Some_0@, public_key@) {
            Some(c) => {
                &&& c.4 == machine_id@ && c.1 + 60 >= u64::MAX ==> r->Ok_0.search_allowed
                    && r->Ok_0.customer is Some && r->Ok_0.customer->Some_0@ == c.0
                &&& c.4 == machine_id@ && c.1 + 60 >= u64::MAX && c.3 ==> r->Ok_0.status@
                    == "permanent"@
                &&& c.4 != machine_id@ ==> r->Ok_0.customer is None && (r->Ok_0.search_allowed
                    <==> now - row.install_started_at < 2_592_000)
            },
            None => r->Ok_0.customer is None && (r->Ok_0.search_allowed <==> now
                - row.install_started_at < 2_592_000),
        },
{
    crate::text::blank_texts_trim_to_nothing(row.install_fingerprint@);
    crate::text::blank_texts_trim_to_nothing(row.license_key->Some_0@);
    if r is Ok && is_trial(
        r->Ok_0,
        days_since(row.install_started_at as int, now as int),
    ) {
        trial_lasts_thirty_days(r->Ok_0, row.install_started_at as int, now as int);
    }
}

/// A key that is entered has to be signed and for this machine; one that is and never
/// ends is accepted, and the state is that of its customer.
pub proof fn entered_keys_are_for_this_machine(
    license_key: &str,
    public_key: &Vec<u8>,
    machine_id: &String,
    r: Result<LicenseState, AppError>,
)
    requires
        call_ensures(enter_license_key, (license_key, public_key, machine_id), r),
    ensures
        match signed_claims(license_key@, public_key@) {
            Some(c) => {
                &&& r is Ok ==> c.4 == machine_id@ && r->Ok_0.search_allowed && r->Ok_0.customer
                    is Some && r->Ok_0.customer->Some_0@ == c.0
                &&& c.4 == machine_id@ && c.1 + 60 >= u64::MAX ==> r is Ok
            },
            None => r is Err,
        },
        r is Err ==> r->Err_0 is InvalidRequest,
{
}

/// What the client sees is the state, of a trial of thirty days; only a license that ends
/// shows when.
pub proof fn states_are_shown_as_they_are(
    state: &LicenseState,
    machine_id: String,
    r: LicenseStatusResponse,
    now: i64,
    validated: Option<i64>,
)
    requires
        call_ensures(to_response, (state, machine_id), r),
        call_ensures(validated_at, (state, now), validated),
    ensures
        r.trial_days_total == 30,
        r.status@ == state.status@,
        r.message@ == state.message@,
        r.trial_days_used == state.trial_days_used,
        r.trial_days_left == state.trial_days_left,
        r.search_allowed == state.search_allowed,
        r.machine_id@ == machine_id@,
        r.customer is Some == state.customer is Some,
        r.customer is Some ==> r.customer->Some_0@ == state.customer->Some_0@,
        state.expires_at is None ==> r.expires_at is None,
        state.expires_at is Some && 0 <= state.expires_at->Some_0 <= 253_402_300_799 ==> r.expires_at
            is Some,
        validated is Some <==> state.customer is Some,
        validated is Some ==> validated->Some_0 == now,
{
}

/// A key that is verified says what was signed, for this machine, and one that does not
/// is refused.
pub proof fn verified_keys_are_signed_for_this_machine(
    license_key: &str,
    public_key: &Vec<u8>,
    machine_id: &String,
    r: Option<(LicenseClaims, String)>,
)
    requires
        call_ensures(verify_license_key, (license_key, public_key, machine_id), r),
    ensures
        r is Some ==> signed_claims(license_key@, public_key@) is Some,
        r is Some ==> {
            let c = signed_claims(license_key@, public_key@)->Some_0;
            &&& r->Some_0.0.sub@ == c.0
            &&& r->Some_0.0.exp == c.1
            &&& r->Some_0.0.is_permanent == c.3
            &&& r->Some_0.0.machine_id@ == machine_id@
            &&& c.4 == machine_id@
        },
        signed_claims(license_key@, public_key@) is Some && signed_claims(
            license_key@,
            public_key@,
        )->Some_0.4 == machine_id@ && signed_claims(license_key@, public_key@)->Some_0.1 + 60
            >= u64::MAX ==> r is Some,
{
}

/// A key is verified where the row holds one that is not blank, as it stands.
pub proof fn keys_that_are_not_blank_are_verified(row: &LicenseRow, r: Option<String>)
    requires
        call_ensures(key_to_verify, (row,), r),
    ensures
        r is Some <==> row.license_key is Some && crate::text::holds_text(
            row.license_key->Some_0@,
        ),
        r is Some ==> r->Some_0@ == row.license_key->Some_0@,
{
    if row.license_key is Some {
        crate::text::blank_texts_trim_to_nothing(row.license_key->Some_0@);
    }
}

/// The state under a license shows whose it is and until when.
pub proof fn licenses_are_shown(claims: LicenseClaims, message: String, r: LicenseState)
    requires
        call_ensures(licensed_state, (claims, message), r),
    ensures
        shows_license(r, claims, message@),
{
}

} // verus!
