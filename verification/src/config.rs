//! Configuration: the values that git config files hold, read through `git_config`, and the
//! left-biased merge of the configurations of several files.
use crate::error::{BitError, BitResult};
use crate::xdiff::ConflictStyle;
use vstd::prelude::*;
use vstd::utf8::{decode_utf8, encode_utf8, valid_utf8};

verus! {

/// Whether `git_config` parses `text` as config text.
pub uninterp spec fn spec_config_parses(text: Seq<u8>) -> bool;

/// The raw value `git_config` gives for `key` in section `section` (no subsection) of config
/// text `text`: the last one where the key occurs several times; `None` where the text does
/// not parse or holds no such value.
pub uninterp spec fn spec_config_raw_value(text: Seq<u8>, section: Seq<char>, key: Seq<char>) -> Option<Seq<u8>>;

/// `git_config::file::GitConfig::try_from` on bytes: whether the text parses.
#[verifier::external_body]
fn config_parses(text: &[u8]) -> (r: bool)
    ensures
        r == spec_config_parses(text@),
{
    git_config::file::GitConfig::try_from(text).is_ok()
}

/// `git_config::file::GitConfig::get_raw_value` with no subsection, on the configuration that
/// `GitConfig::try_from` parses from `text`; a parse or lookup error gives `None`.
#[verifier::external_body]
fn config_raw_value(text: &[u8], section: &str, key: &str) -> (r: Option<Vec<u8>>)
    ensures
        r is Some <==> spec_config_raw_value(text@, section@, key@) is Some,
        r matches Some(v) ==> spec_config_raw_value(text@, section@, key@) == Some(v@),
{
    match git_config::file::GitConfig::try_from(text) {
        Ok(config) => config.get_raw_value(section, None, key).ok().map(|v| v.to_vec()),
        Err(_) => None,
    }
}

/// ASCII upper case letters to lower case; other bytes unchanged.
pub open spec fn ascii_lower(b: u8) -> u8 {
    if 65 <= b <= 90 {
        (b + 32) as u8
    } else {
        b
    }
}

/// Whether `s` equals the lower case ASCII word `w` ignoring ASCII case.
pub open spec fn ascii_ieq(s: Seq<u8>, w: Seq<u8>) -> bool {
    s.len() == w.len() && forall|i: int| 0 <= i < s.len() ==> ascii_lower(s[i]) == w[i]
}

/// A config boolean as `git_config` reads it: `yes`, `on`, `true`, `one` in any ASCII case
/// and the empty value are true; `no`, `off`, `false`, `zero` in any ASCII case and `""` (two
/// double quotes) are false; anything else is no boolean.
pub open spec fn git_boolean(s: Seq<u8>) -> Option<bool> {
    if ascii_ieq(s, seq![121u8, 101, 115]) || ascii_ieq(s, seq![111u8, 110]) || ascii_ieq(
        s,
        seq![116u8, 114, 117, 101],
    ) || ascii_ieq(s, seq![111u8, 110, 101]) || s.len() == 0 {
        Some(true)
    } else if ascii_ieq(s, seq![110u8, 111]) || ascii_ieq(s, seq![111u8, 102, 102]) || ascii_ieq(
        s,
        seq![102u8, 97, 108, 115, 101],
    ) || ascii_ieq(s, seq![122u8, 101, 114, 111]) || s == seq![34u8, 34] {
        Some(false)
    } else {
        None
    }
}

/// `git_config::values::Boolean::try_from` on bytes, as a `bool`.
#[verifier::external_body]
fn parse_git_boolean(s: &[u8]) -> (r: Option<bool>)
    ensures
        r == git_boolean(s@),
{
    match git_config::values::Boolean::try_from(s) {
        Ok(git_config::values::Boolean::True(_)) => Some(true),
        Ok(git_config::values::Boolean::False(_)) => Some(false),
        Err(_) => None,
    }
}

/// Whether every byte is an ASCII decimal digit.
pub open spec fn all_dec_digits(d: Seq<u8>) -> bool {
    forall|i: int| 0 <= i < d.len() ==> 48 <= #[trigger] d[i] <= 57
}

/// The number the decimal digits `d` write.
pub open spec fn dec_value(d: Seq<u8>) -> int
    decreases d.len(),
{
    if d.len() == 0 {
        0
    } else {
        dec_value(d.drop_last()) * 10 + (d.last() - 48)
    }
}

/// `i64`'s `from_str`: an optional `+` or `-`, then at least one decimal digit and nothing
/// else, the value within the range of `i64`.
pub open spec fn i64_from_dec(s: Seq<u8>) -> Option<i64> {
    let neg = s.len() > 0 && s[0] == 45u8;
    let d = if s.len() > 0 && (s[0] == 45u8 || s[0] == 43u8) {
        s.drop_first()
    } else {
        s
    };
    let v = if neg {
        -dec_value(d)
    } else {
        dec_value(d)
    };
    if d.len() == 0 || !all_dec_digits(d) || v < i64::MIN || v > i64::MAX {
        None
    } else {
        Some(v as i64)
    }
}

/// The shift of an integer suffix: `k` 10, `m` 20, `g` 30.
pub open spec fn suffix_shift(b: u8) -> Option<u64> {
    if b == 107u8 {
        Some(10)
    } else if b == 109u8 {
        Some(20)
    } else if b == 103u8 {
        Some(30)
    } else {
        None
    }
}

/// A config integer as `git_config` reads it: the value and the suffix letter. The text must
/// be UTF-8; either all of it is an `i64`, or all but its last byte is and the last byte is
/// `k`, `m` or `g`.
pub open spec fn git_integer(s: Seq<u8>) -> Option<(i64, Option<u8>)> {
    if !valid_utf8(s) {
        None
    } else if i64_from_dec(s) is Some {
        Some((i64_from_dec(s)->0, None))
    } else if s.len() <= 1 || i64_from_dec(s.drop_last()) is None || suffix_shift(s.last()) is None {
        None
    } else {
        Some((i64_from_dec(s.drop_last())->0, Some(s.last())))
    }
}

/// `git_config::values::Integer::try_from` on bytes: the value and the letter of the suffix.
/// The crate splits off the last byte as the suffix, which panics inside a multi-byte
/// character; such text is left out.
#[verifier::external_body]
fn parse_git_integer(s: &[u8]) -> (r: Option<(i64, Option<u8>)>)
    requires
        !(valid_utf8(s@) && s@.len() > 1 && s@.last() >= 0x80),
    ensures
        r == git_integer(s@),
{
    match git_config::values::Integer::try_from(s) {
        Ok(i) => match i.suffix {
            Some(git_config::values::IntegerSuffix::Kibi) => Some((i.value, Some(b'k'))),
            Some(git_config::values::IntegerSuffix::Mebi) => Some((i.value, Some(b'm'))),
            Some(git_config::values::IntegerSuffix::Gibi) => Some((i.value, Some(b'g'))),
            None => Some((i.value, None)),
        },
        Err(_) => None,
    }
}

/// `String::from_utf8`: the string that the bytes encode, if they are UTF-8.
#[verifier::external_body]
pub(crate) fn string_from_utf8(bytes: Vec<u8>) -> (r: Option<String>)
    ensures
        r is Some <==> valid_utf8(bytes@),
        r matches Some(s) ==> s@ == decode_utf8(bytes@),
{
    String::from_utf8(bytes).ok()
}

/// The shift of a suffix letter, computed.
fn suffix_shift_of(b: u8) -> (r: u64)
    requires
        suffix_shift(b) is Some,
    ensures
        r == suffix_shift(b)->0,
{
    if b == 107u8 {
        10
    } else if b == 109u8 {
        20
    } else {
        30
    }
}

/// The value of a config integer: the number shifted left by the suffix's shift, the bits
/// shifted past the top dropped.
pub open spec fn shifted_value(v: i64, suffix: Option<u8>) -> i64 {
    match suffix {
        None => v,
        Some(c) => (((v as u64) << suffix_shift(c)->0) as i64),
    }
}

/// What reading a config integer from its bytes gives.
pub open spec fn integer_value(b: Seq<u8>) -> BitResult<i64> {
    if b.len() > 1 && b.last() >= 0x80 {
        Err(BitError::InvalidConfigValue)
    } else {
        match git_integer(b) {
            None => Err(BitError::InvalidConfigValue),
            Some((v, suffix)) => Ok(shifted_value(v, suffix)),
        }
    }
}

/// What reading a config boolean from its bytes gives.
pub open spec fn boolean_value(b: Seq<u8>) -> BitResult<bool> {
    match git_boolean(b) {
        None => Err(BitError::InvalidConfigValue),
        Some(v) => Ok(v),
    }
}

/// `merge` in ASCII.
pub open spec fn merge_word() -> Seq<u8> {
    seq![109u8, 101, 114, 103, 101]
}

/// `diff3` in ASCII.
pub open spec fn diff3_word() -> Seq<u8> {
    seq![100u8, 105, 102, 102, 51]
}

/// What reading a conflict style from its bytes gives: `merge` or `diff3`.
pub open spec fn conflict_style_value(b: Seq<u8>) -> BitResult<ConflictStyle> {
    if b == merge_word() {
        Ok(ConflictStyle::Merge)
    } else if b == diff3_word() {
        Ok(ConflictStyle::Diff3)
    } else {
        Err(BitError::InvalidConfigValue)
    }
}

/// A type of value that config files hold.
pub trait BitConfigValue: Sized {
    /// Whether `parse` of the string `s` may give `r`.
    spec fn parses_to(s: Seq<char>, r: BitResult<Self>) -> bool;

    fn parse(s: &str) -> (r: BitResult<Self>)
        ensures
            Self::parses_to(s@, r),
    ;
}

impl BitConfigValue for String {
    /// Any string, as it is.
    open spec fn parses_to(s: Seq<char>, r: BitResult<Self>) -> bool {
        r matches Ok(v) && v@ == s
    }

    fn parse(s: &str) -> (r: BitResult<Self>) {
        Ok(s.to_owned())
    }
}

impl BitConfigValue for i64 {
    open spec fn parses_to(s: Seq<char>, r: BitResult<Self>) -> bool {
        r == integer_value(encode_utf8(s))
    }

    fn parse(s: &str) -> (r: BitResult<Self>) {
        let b = s.as_bytes();
        let n = b.len();
        proof {
            vstd::utf8::encode_utf8_valid_utf8(s@);
        }
        if n > 1 && b[n - 1] >= 0x80 {
            return Err(BitError::InvalidConfigValue);
        }
        match parse_git_integer(b) {
            None => Err(BitError::InvalidConfigValue),
            Some((v, suffix)) => match suffix {
                None => Ok(v),
                Some(c) => {
                    let sh = suffix_shift_of(c);
                    Ok(((v as u64) << sh) as i64)
                },
            },
        }
    }
}

impl BitConfigValue for bool {
    open spec fn parses_to(s: Seq<char>, r: BitResult<Self>) -> bool {
        r == boolean_value(encode_utf8(s))
    }

    fn parse(s: &str) -> (r: BitResult<Self>) {
        match parse_git_boolean(s.as_bytes()) {
            None => Err(BitError::InvalidConfigValue),
            Some(v) => Ok(v),
        }
    }
}

impl BitConfigValue for ConflictStyle {
    open spec fn parses_to(s: Seq<char>, r: BitResult<Self>) -> bool {
        r == conflict_style_value(encode_utf8(s))
    }

    fn parse(s: &str) -> (r: BitResult<Self>) {
        let b = s.as_bytes();
        if bytes_are(b, &[109u8, 101, 114, 103, 101]) {
            Ok(ConflictStyle::Merge)
        } else if bytes_are(b, &[100u8, 105, 102, 102, 51]) {
            Ok(ConflictStyle::Diff3)
        } else {
            Err(BitError::InvalidConfigValue)
        }
    }
}

fn bytes_are(b: &[u8], w: &[u8; 5]) -> (r: bool)
    ensures
        r == (b@ == w@),
{
    crate::hash::bytes_eq(b, w.as_slice())
}

/// What `RawConfig::get` gives for the raw value `raw` of a key: nothing where there is no
/// value, an error where it is not UTF-8, otherwise what `T::parse` gives for its text.
pub open spec fn get_result<T: BitConfigValue>(raw: Option<Seq<u8>>, r: BitResult<Option<T>>) -> bool {
    match raw {
        None => r matches Ok(None),
        Some(v) => if !valid_utf8(v) {
            r == Err::<Option<T>, BitError>(BitError::InvalidConfigValue)
        } else {
            match r {
                Ok(Some(x)) => T::parses_to(decode_utf8(v), Ok(x)),
                Ok(None) => false,
                Err(e) => T::parses_to(decode_utf8(v), Err(e)),
            }
        },
    }
}

/// Config text that parses, read through `git_config`.
pub struct RawConfig {
    text: Vec<u8>,
}

impl RawConfig {
    pub closed spec fn spec_text(&self) -> Seq<u8> {
        self.text@
    }

    /// The configuration of `text`; fails where the text does not parse.
    pub fn new(text: Vec<u8>) -> (r: BitResult<RawConfig>)
        ensures
            r is Ok <==> spec_config_parses(text@),
            r matches Ok(c) ==> c.spec_text() == text@,
            r is Err ==> r == Err::<RawConfig, BitError>(BitError::InvalidConfig),
    {
        if config_parses(text.as_slice()) {
            Ok(RawConfig { text })
        } else {
            Err(BitError::InvalidConfig)
        }
    }

    /// The raw value of `key` in `section`.
    pub fn get_raw(&self, section: &str, key: &str) -> (r: Option<Vec<u8>>)
        ensures
            r is Some <==> spec_config_raw_value(self.spec_text(), section@, key@) is Some,
            r matches Some(v) ==> spec_config_raw_value(self.spec_text(), section@, key@) == Some(
                v@,
            ),
    {
        config_raw_value(self.text.as_slice(), section, key)
    }

    /// The value of `key` in `section` read as a `T`, if the key has a value.
    pub fn get<T: BitConfigValue>(&self, section: &str, key: &str) -> (r: BitResult<Option<T>>)
        ensures
            get_result(spec_config_raw_value(self.spec_text(), section@, key@), r),
    {
        match self.get_raw(section, key) {
            None => Ok(None),
            Some(bytes) => match string_from_utf8(bytes) {
                None => Err(BitError::InvalidConfigValue),
                Some(text) => match T::parse(text.as_str()) {
                    Ok(x) => Ok(Some(x)),
                    Err(e) => Err(e),
                },
            },
        }
    }
}

/// The first value that is there, in order.
pub open spec fn first_some<T>(s: Seq<Option<T>>) -> Option<T>
    decreases s.len(),
{
    if s.len() == 0 {
        None
    } else if s[0] is Some {
        s[0]
    } else {
        first_some(s.drop_first())
    }
}

/// The left-biased merge of two optional values: the first where it is there.
pub open spec fn left_biased<T>(a: Option<T>, b: Option<T>) -> Option<T> {
    if a is Some {
        a
    } else {
        b
    }
}

/// Merging the first value that is there in a sequence with one more value gives the first
/// value that is there in the longer sequence.
pub proof fn lemma_first_some_push<T>(s: Seq<Option<T>>, x: Option<T>)
    ensures
        left_biased(first_some(s), x) == first_some(s.push(x)),
    decreases s.len(),
{
    if s.len() > 0 {
        lemma_first_some_push(s.drop_first(), x);
        assert(s.push(x).drop_first() =~= s.drop_first().push(x));
    } else {
        assert(s.push(x).drop_first() =~= Seq::<Option<T>>::empty());
        assert(first_some(Seq::<Option<T>>::empty()) == None::<T>);
        assert(s.push(x)[0] == x);
    }
}

/// A left-biased merge: what `self` holds wins over what `other` holds.
pub trait Merge: Sized {
    fn merge(&mut self, other: Self);
}

impl<T> Merge for Option<T> {
    fn merge(&mut self, other: Self)
        ensures
            *final(self) == left_biased(*old(self), other),
    {
        if self.is_none() {
            *self = other;
        }
    }
}

/// The `core` section.
pub struct CoreConfig {
    pub repositoryformatversion: Option<i64>,
    pub bare: Option<bool>,
    pub filemode: Option<bool>,
    pub pager: Option<String>,
}

/// The `user` section.
pub struct UserConfig {
    pub name: Option<String>,
    pub email: Option<String>,
}

/// The `merge` section.
pub struct MergeConfig {
    pub conflict_style: Option<ConflictStyle>,
}

/// The configuration: the sections the library reads.
pub struct BitConfig {
    pub core: CoreConfig,
    pub user: UserConfig,
    pub merge: MergeConfig,
}

impl Default for CoreConfig {
    fn default() -> (r: Self)
        ensures
            r.repositoryformatversion is None && r.bare is None && r.filemode is None
                && r.pager is None,
    {
        CoreConfig { repositoryformatversion: None, bare: None, filemode: None, pager: None }
    }
}

impl Default for UserConfig {
    fn default() -> (r: Self)
        ensures
            r.name is None && r.email is None,
    {
        UserConfig { name: None, email: None }
    }
}

impl Default for MergeConfig {
    fn default() -> (r: Self)
        ensures
            r.conflict_style is None,
    {
        MergeConfig { conflict_style: None }
    }
}

impl Default for BitConfig {
    fn default() -> (r: Self)
        ensures
            r.core.repositoryformatversion is None && r.core.bare is None && r.core.filemode is None
                && r.core.pager is None,
            r.user.name is None && r.user.email is None,
            r.merge.conflict_style is None,
    {
        BitConfig { core: CoreConfig::default(), user: UserConfig::default(), merge: MergeConfig::default() }
    }
}

impl Merge for CoreConfig {
    fn merge(&mut self, other: Self)
        ensures
            final(self).repositoryformatversion == left_biased(
                old(self).repositoryformatversion,
                other.repositoryformatversion,
            ),
            final(self).bare == left_biased(old(self).bare, other.bare),
            final(self).filemode == left_biased(old(self).filemode, other.filemode),
            final(self).pager == left_biased(old(self).pager, other.pager),
    {
        self.repositoryformatversion.merge(other.repositoryformatversion);
        self.bare.merge(other.bare);
        self.filemode.merge(other.filemode);
        self.pager.merge(other.pager);
    }
}

impl Merge for UserConfig {
    fn merge(&mut self, other: Self)
        ensures
            final(self).name == left_biased(old(self).name, other.name),
            final(self).email == left_biased(old(self).email, other.email),
    {
        self.name.merge(other.name);
        self.email.merge(other.email);
    }
}

impl Merge for MergeConfig {
    fn merge(&mut self, other: Self)
        ensures
            final(self).conflict_style == left_biased(old(self).conflict_style, other.conflict_style),
    {
        self.conflict_style.merge(other.conflict_style);
    }
}

impl Merge for BitConfig {
    fn merge(&mut self, other: Self)
        ensures
            final(self).core.repositoryformatversion == left_biased(
                old(self).core.repositoryformatversion,
                other.core.repositoryformatversion,
            ),
            final(self).core.bare == left_biased(old(self).core.bare, other.core.bare),
            final(self).core.filemode == left_biased(old(self).core.filemode, other.core.filemode),
            final(self).core.pager == left_biased(old(self).core.pager, other.core.pager),
            final(self).user.name == left_biased(old(self).user.name, other.user.name),
            final(self).user.email == left_biased(old(self).user.email, other.user.email),
            final(self).merge.conflict_style == left_biased(
                old(self).merge.conflict_style,
                other.merge.conflict_style,
            ),
    {
        self.core.merge(other.core);
        self.user.merge(other.user);
        self.merge.merge(other.merge);
    }
}

/// Whether reading the key as a `T` fails.
pub open spec fn get_fails<T: BitConfigValue>(raw: Option<Seq<u8>>) -> bool {
    exists|e: BitError| get_result::<T>(raw, Err(e))
}

/// What `CoreConfig::from_config` gives for config text: `repositoryformatversion`, `bare`,
/// `filemode` and `pager` of section `core`, read in this order; the first error stops it.
pub open spec fn core_config_from(text: Seq<u8>, r: BitResult<CoreConfig>) -> bool {
    let a = spec_config_raw_value(text, "core"@, "repositoryformatversion"@);
    let b = spec_config_raw_value(text, "core"@, "bare"@);
    let f = spec_config_raw_value(text, "core"@, "filemode"@);
    let p = spec_config_raw_value(text, "core"@, "pager"@);
    match r {
        Ok(c) => get_result(a, Ok(c.repositoryformatversion)) && get_result(b, Ok(c.bare))
            && get_result(f, Ok(c.filemode)) && get_result(p, Ok(c.pager)),
        Err(e) => get_result::<i64>(a, Err(e)) || (!get_fails::<i64>(a) && (get_result::<bool>(
            b,
            Err(e),
        ) || (!get_fails::<bool>(b) && (get_result::<bool>(f, Err(e)) || (!get_fails::<bool>(f)
            && get_result::<String>(p, Err(e))))))),
    }
}

/// What `UserConfig::from_config` gives: `name` and `email` of section `user`.
pub open spec fn user_config_from(text: Seq<u8>, r: BitResult<UserConfig>) -> bool {
    let n = spec_config_raw_value(text, "user"@, "name"@);
    let m = spec_config_raw_value(text, "user"@, "email"@);
    match r {
        Ok(c) => get_result(n, Ok(c.name)) && get_result(m, Ok(c.email)),
        Err(e) => get_result::<String>(n, Err(e)) || (!get_fails::<String>(n) && get_result::<
            String,
        >(m, Err(e))),
    }
}

/// What `MergeConfig::from_config` gives: `conflictStyle` of section `merge`.
pub open spec fn merge_config_from(text: Seq<u8>, r: BitResult<MergeConfig>) -> bool {
    let c = spec_config_raw_value(text, "merge"@, "conflictStyle"@);
    match r {
        Ok(m) => get_result(c, Ok(m.conflict_style)),
        Err(e) => get_result::<ConflictStyle>(c, Err(e)),
    }
}

/// What `BitConfig::from_gitconfig` gives: the sections `core`, `user` and `merge`, read in
/// this order.
pub open spec fn bit_config_from(text: Seq<u8>, r: BitResult<BitConfig>) -> bool {
    match r {
        Ok(c) => core_config_from(text, Ok(c.core)) && user_config_from(text, Ok(c.user))
            && merge_config_from(text, Ok(c.merge)),
        Err(e) => core_config_from(text, Err(e)) || ((!exists|e2: BitError|
            core_config_from(text, Err(e2))) && (user_config_from(text, Err(e)) || ((!exists|
            e2: BitError,
        | user_config_from(text, Err(e2))) && merge_config_from(text, Err(e))))),
    }
}

impl CoreConfig {
    pub fn from_config(config: &RawConfig) -> (r: BitResult<Self>)
        ensures
            core_config_from(config.spec_text(), r),
    {
        let repositoryformatversion = config.get::<i64>("core", "repositoryformatversion")?;
        let bare = config.get::<bool>("core", "bare")?;
        let filemode = config.get::<bool>("core", "filemode")?;
        let pager = config.get::<String>("core", "pager")?;
        Ok(CoreConfig { repositoryformatversion, bare, filemode, pager })
    }
}

impl UserConfig {
    pub fn from_config(config: &RawConfig) -> (r: BitResult<Self>)
        ensures
            user_config_from(config.spec_text(), r),
    {
        let name = config.get::<String>("user", "name")?;
        let email = config.get::<String>("user", "email")?;
        Ok(UserConfig { name, email })
    }
}

impl MergeConfig {
    pub fn from_config(config: &RawConfig) -> (r: BitResult<Self>)
        ensures
            merge_config_from(config.spec_text(), r),
    {
        let conflict_style = config.get::<ConflictStyle>("merge", "conflictStyle")?;
        Ok(MergeConfig { conflict_style })
    }
}

impl BitConfig {
    pub fn from_gitconfig(config: &RawConfig) -> (r: BitResult<Self>)
        ensures
            bit_config_from(config.spec_text(), r),
    {
        let core = CoreConfig::from_config(config)?;
        let user = UserConfig::from_config(config)?;
        let merge = MergeConfig::from_config(config)?;
        Ok(BitConfig { core, user, merge })
    }
}

/// The configuration that merging `parsed`, in order, gives: each value from the first
/// configuration that has it.
pub open spec fn merged_config(c: BitConfig, parsed: Seq<BitConfig>) -> bool {
    &&& c.core.repositoryformatversion == first_some(
        parsed.map_values(|p: BitConfig| p.core.repositoryformatversion),
    )
    &&& c.core.bare == first_some(parsed.map_values(|p: BitConfig| p.core.bare))
    &&& c.core.filemode == first_some(parsed.map_values(|p: BitConfig| p.core.filemode))
    &&& c.core.pager == first_some(parsed.map_values(|p: BitConfig| p.core.pager))
    &&& c.user.name == first_some(parsed.map_values(|p: BitConfig| p.user.name))
    &&& c.user.email == first_some(parsed.map_values(|p: BitConfig| p.user.email))
    &&& c.merge.conflict_style == first_some(
        parsed.map_values(|p: BitConfig| p.merge.conflict_style),
    )
}

/// Whether the configuration of the text reads without error.
pub open spec fn config_reads(text: Seq<u8>) -> bool {
    exists|c: BitConfig| bit_config_from(text, Ok(c))
}

impl BitConfig {
    /// The configuration of the given config files, highest precedence first: each value
    /// comes from the first file that has it. The first file that fails to read stops it.
    pub fn init(configs: Vec<RawConfig>) -> (r: BitResult<Self>)
        ensures
            r matches Ok(c) ==> exists|parsed: Seq<BitConfig>|
                {
                    &&& parsed.len() == configs@.len()
                    &&& forall|i: int|
                        0 <= i < parsed.len() ==> bit_config_from(
                            #[trigger] configs@[i].spec_text(),
                            Ok(parsed[i]),
                        )
                    &&& merged_config(c, parsed)
                },
            r matches Err(e) ==> exists|i: int|
                {
                    &&& 0 <= i < configs@.len()
                    &&& bit_config_from(configs@[i].spec_text(), Err(e))
                    &&& forall|j: int| 0 <= j < i ==> config_reads(#[trigger] configs@[j].spec_text())
                },
    {
        let mut config = BitConfig::default();
        let ghost mut parsed: Seq<BitConfig> = Seq::empty();
        let mut i: usize = 0;
        proof {
            assert(merged_config(config, parsed));
        }
        while i < configs.len()
            invariant
                i <= configs@.len(),
                parsed.len() == i,
                forall|j: int|
                    0 <= j < i ==> bit_config_from(#[trigger] configs@[j].spec_text(), Ok(parsed[j])),
                merged_config(config, parsed),
            decreases configs@.len() - i,
        {
            let c = match BitConfig::from_gitconfig(&configs[i]) {
                Ok(c) => c,
                Err(e) => {
                    proof {
                        assert forall|j: int| 0 <= j < i implies config_reads(
                            #[trigger] configs@[j].spec_text(),
                        ) by {
                            assert(bit_config_from(configs@[j].spec_text(), Ok(parsed[j])));
                        }
                        let w = i as int;
                        assert(bit_config_from(configs@[w].spec_text(), Err(e)));
                    }
                    return Err(e);
                },
            };
            let ghost next = parsed.push(c);
            proof {
                lemma_first_some_push(
                    parsed.map_values(|p: BitConfig| p.core.repositoryformatversion),
                    c.core.repositoryformatversion,
                );
                lemma_first_some_push(parsed.map_values(|p: BitConfig| p.core.bare), c.core.bare);
                lemma_first_some_push(
                    parsed.map_values(|p: BitConfig| p.core.filemode),
                    c.core.filemode,
                );
                lemma_first_some_push(parsed.map_values(|p: BitConfig| p.core.pager), c.core.pager);
                lemma_first_some_push(parsed.map_values(|p: BitConfig| p.user.name), c.user.name);
                lemma_first_some_push(
                    parsed.map_values(|p: BitConfig| p.user.email),
                    c.user.email,
                );
                lemma_first_some_push(
                    parsed.map_values(|p: BitConfig| p.merge.conflict_style),
                    c.merge.conflict_style,
                );
                assert(next.map_values(|p: BitConfig| p.core.repositoryformatversion)
                    =~= parsed.map_values(|p: BitConfig| p.core.repositoryformatversion).push(
                    c.core.repositoryformatversion,
                ));
                assert(next.map_values(|p: BitConfig| p.core.bare) =~= parsed.map_values(
                    |p: BitConfig| p.core.bare,
                ).push(c.core.bare));
                assert(next.map_values(|p: BitConfig| p.core.filemode) =~= parsed.map_values(
                    |p: BitConfig| p.core.filemode,
                ).push(c.core.filemode));
                assert(next.map_values(|p: BitConfig| p.core.pager) =~= parsed.map_values(
                    |p: BitConfig| p.core.pager,
                ).push(c.core.pager));
                assert(next.map_values(|p: BitConfig| p.user.name) =~= parsed.map_values(
                    |p: BitConfig| p.user.name,
                ).push(c.user.name));
                assert(next.map_values(|p: BitConfig| p.user.email) =~= parsed.map_values(
                    |p: BitConfig| p.user.email,
                ).push(c.user.email));
                assert(next.map_values(|p: BitConfig| p.merge.conflict_style) =~= parsed.map_values(
                    |p: BitConfig| p.merge.conflict_style,
                ).push(c.merge.conflict_style));
            }
            config.merge(c);
            proof {
                parsed = next;
            }
            i = i + 1;
        }
        Ok(config)
    }

    /// Whether the file mode bits are tracked; false unless configured.
    pub fn filemode(&self) -> (r: bool)
        ensures
            r == (match self.core.filemode {
                Some(b) => b,
                None => false,
            }),
    {
        match self.core.filemode {
            Some(b) => b,
            None => false,
        }
    }

    /// The pager; `less` unless configured.
    pub fn pager(&self) -> (r: String)
        ensures
            r@ == (match self.core.pager {
                Some(p) => p@,
                None => "less"@,
            }),
    {
        match &self.core.pager {
            Some(p) => p.clone(),
            None => "less".to_owned(),
        }
    }

    /// The conflict style of merges; `merge` unless configured.
    pub fn conflict_style(&self) -> (r: ConflictStyle)
        ensures
            r == (match self.merge.conflict_style {
                Some(s) => s,
                None => ConflictStyle::Merge,
            }),
    {
        match self.merge.conflict_style {
            Some(s) => s,
            None => ConflictStyle::Merge,
        }
    }

    pub fn repositoryformatversion(&self) -> (r: Option<i64>)
        ensures
            r == self.core.repositoryformatversion,
    {
        self.core.repositoryformatversion
    }

    pub fn bare(&self) -> (r: Option<bool>)
        ensures
            r == self.core.bare,
    {
        self.core.bare
    }

    pub fn name(&self) -> (r: Option<String>)
        ensures
            r == self.user.name,
    {
        match &self.user.name {
            Some(n) => Some(n.clone()),
            None => None,
        }
    }

    pub fn email(&self) -> (r: Option<String>)
        ensures
            r == self.user.email,
    {
        match &self.user.email {
            Some(n) => Some(n.clone()),
            None => None,
        }
    }
}

} // verus!
