//! The node's configuration file and the genesis file of bootstrap
//! contacts.

use crate::crypto::{ed25519_public_key, public_key_of, sha256, sha256_digest};
use crate::encoding::{
    hex_decode, hex_decode_spec, hex_encode, hex_encode_spec, lemma_hex_round_trip, string_of,
};
use crate::kadem::{IpAddress, NodeContact};
use crate::node_id::NodeId;
use crate::text::{
    chars_of, decimal, decimal_chars, is_white_space, lemma_decimal_parses, lemma_lines_cons,
    lemma_lines_single, lemma_split_at_first, lemma_trim_fixed, lemma_trimmed_ends, lines,
    lines_of, parse_u16, parse_u16_chars, rsplit_once, rsplit_once_chars, spells, split_once,
    split_once_chars, trim, trim_chars,
};
use vstd::prelude::*;

verus! {

/// Errors of reading a configuration file; line numbers count from 1.
#[derive(Debug)]
pub enum ConfigError {
    /// A non-blank line has no `=`.
    MissingEquals { line: usize },
    /// The value of `port` is not a 16-bit unsigned number.
    InvalidPort { line: usize },
    /// A key other than `secret_key`, `port` and `datadir`.
    UnrecognizedKey { key: String, line: usize },
    MissingSecretKey,
    /// The secret key is not hexadecimal text.
    SecretKeyNotHex,
    /// The secret key does not decode to exactly 32 bytes.
    SecretKeyWrongLength,
    MissingPort,
    MissingDatadir,
}

/// [`ConfigError`] with its texts as character sequences.
pub enum ConfigErrorView {
    MissingEquals(nat),
    InvalidPort(nat),
    UnrecognizedKey(Seq<char>, nat),
    MissingSecretKey,
    SecretKeyNotHex,
    SecretKeyWrongLength,
    MissingPort,
    MissingDatadir,
}

impl View for ConfigError {
    type V = ConfigErrorView;

    open spec fn view(&self) -> ConfigErrorView {
        match self {
            ConfigError::MissingEquals { line } => ConfigErrorView::MissingEquals(*line as nat),
            ConfigError::InvalidPort { line } => ConfigErrorView::InvalidPort(*line as nat),
            ConfigError::UnrecognizedKey { key, line } => ConfigErrorView::UnrecognizedKey(
                key@,
                *line as nat,
            ),
            ConfigError::MissingSecretKey => ConfigErrorView::MissingSecretKey,
            ConfigError::SecretKeyNotHex => ConfigErrorView::SecretKeyNotHex,
            ConfigError::SecretKeyWrongLength => ConfigErrorView::SecretKeyWrongLength,
            ConfigError::MissingPort => ConfigErrorView::MissingPort,
            ConfigError::MissingDatadir => ConfigErrorView::MissingDatadir,
        }
    }
}

/// What a configuration file sets up: the UDP port, the data directory,
/// the Ed25519 secret key and the node identifier derived from it.
#[derive(Debug)]
pub struct ConfigValues {
    pub port: u16,
    pub datadir: String,
    pub signing_key: [u8; 32],
    pub node_id: NodeId,
}

/// [`ConfigValues`] as plain sequences.
pub struct ConfigValuesView {
    pub port: u16,
    pub datadir: Seq<char>,
    pub signing_key: Seq<u8>,
    pub node_id: Seq<u8>,
}

impl View for ConfigValues {
    type V = ConfigValuesView;

    open spec fn view(&self) -> ConfigValuesView {
        ConfigValuesView {
            port: self.port,
            datadir: self.datadir@,
            signing_key: self.signing_key@,
            node_id: self.node_id@,
        }
    }
}

/// The node identifier of the owner of a secret key: the SHA-256 digest of
/// its Ed25519 public key.
pub open spec fn node_id_of(secret: Seq<u8>) -> Seq<u8> {
    sha256(ed25519_public_key(secret))
}

/// The values of `secret_key`, `port` and `datadir` seen so far.
pub type ConfigScan = (Option<Seq<char>>, Option<u16>, Option<Seq<char>>);

/// Whether `line` (already trimmed) is skipped: blank, or a `#` comment
/// when comments are allowed.
pub open spec fn skipped_line(line: Seq<char>, allow_comments: bool) -> bool {
    line.len() == 0 || (allow_comments && line[0] == '#')
}

/// Reads the `key=value` lines `ls[i..]` on top of `st`; a later value of
/// a key replaces an earlier one.
pub open spec fn scan_config(
    ls: Seq<Seq<char>>,
    i: int,
    allow_comments: bool,
    st: ConfigScan,
) -> Result<ConfigScan, ConfigErrorView>
    decreases ls.len() - i,
{
    if i < 0 || i >= ls.len() {
        Ok(st)
    } else {
        let line = trim(ls[i]);
        if skipped_line(line, allow_comments) {
            scan_config(ls, i + 1, allow_comments, st)
        } else {
            match split_once(line, '=') {
                None => Err(ConfigErrorView::MissingEquals((i + 1) as nat)),
                Some((key, value)) => {
                    if key == "secret_key"@ {
                        scan_config(ls, i + 1, allow_comments, (Some(value), st.1, st.2))
                    } else if key == "port"@ {
                        match parse_u16(value) {
                            None => Err(ConfigErrorView::InvalidPort((i + 1) as nat)),
                            Some(p) => scan_config(ls, i + 1, allow_comments, (st.0, Some(p), st.2)),
                        }
                    } else if key == "datadir"@ {
                        scan_config(ls, i + 1, allow_comments, (st.0, st.1, Some(value)))
                    } else {
                        Err(ConfigErrorView::UnrecognizedKey(key, (i + 1) as nat))
                    }
                },
            }
        }
    }
}

/// What reading the configuration text `content` gives.
pub open spec fn config_spec(content: Seq<char>, allow_comments: bool) -> Result<
    ConfigValuesView,
    ConfigErrorView,
> {
    match scan_config(lines(content), 0, allow_comments, (None, None, None)) {
        Err(e) => Err(e),
        Ok(st) => match st.0 {
            None => Err(ConfigErrorView::MissingSecretKey),
            Some(hex) => match hex_decode_spec(hex) {
                None => Err(ConfigErrorView::SecretKeyNotHex),
                Some(secret) => if secret.len() != 32 {
                    Err(ConfigErrorView::SecretKeyWrongLength)
                } else {
                    match st.1 {
                        None => Err(ConfigErrorView::MissingPort),
                        Some(port) => match st.2 {
                            None => Err(ConfigErrorView::MissingDatadir),
                            Some(datadir) => Ok(
                                ConfigValuesView {
                                    port,
                                    datadir,
                                    signing_key: secret,
                                    node_id: node_id_of(secret),
                                },
                            ),
                        },
                    }
                },
            },
        },
    }
}

/// Whether `r` is the outcome [`config_spec`] describes for `content`.
pub open spec fn config_outcome(
    r: Result<ConfigValues, ConfigError>,
    content: Seq<char>,
    allow_comments: bool,
) -> bool {
    match r {
        Ok(v) => config_spec(content, allow_comments) == Ok::<ConfigValuesView, ConfigErrorView>(v@),
        Err(e) => config_spec(content, allow_comments) == Err::<ConfigValuesView, ConfigErrorView>(
            e@,
        ),
    }
}

/// Reads a configuration file: `key=value` lines setting `secret_key` (64
/// hexadecimal digits), `port` and `datadir`, with surrounding whitespace
/// ignored and blank lines skipped, and `#` comment lines skipped when
/// `allow_comments`. The node identifier is the SHA-256 digest of the
/// public key of the secret key.
pub fn parse_config(content: &str, allow_comments: bool) -> (r: Result<ConfigValues, ConfigError>)
    ensures
        config_outcome(r, content@, allow_comments),
{
    let chars = chars_of(content);
    let ls = lines_of(&chars);
    let ghost lsv = lines(content@);
    let mut secret_hex: Option<Vec<char>> = None;
    let mut port: Option<u16> = None;
    let mut datadir: Option<Vec<char>> = None;
    let mut i: usize = 0;
    while i < ls.len()
        invariant
            i <= ls@.len(),
            lsv == lines(content@),
            ls@.len() == lsv.len(),
            forall|k: int| 0 <= k < ls@.len() ==> (#[trigger] ls@[k])@ == lsv[k],
            scan_config(lsv, 0, allow_comments, (None, None, None)) == scan_config(
                lsv,
                i as int,
                allow_comments,
                (
                    match secret_hex {
                        Some(v) => Some(v@),
                        None => None,
                    },
                    port,
                    match datadir {
                        Some(v) => Some(v@),
                        None => None,
                    },
                ),
            ),
        decreases ls@.len() - i,
    {
        let line = trim_chars(&ls[i]);
        if line.len() == 0 || (allow_comments && line[0] == '#') {
            i = i + 1;
            continue;
        }
        match split_once_chars(&line, '=') {
            None => {
                return Err(ConfigError::MissingEquals { line: i + 1 });
            },
            Some((key, value)) => {
                if spells(&key, "secret_key") {
                    secret_hex = Some(value);
                } else if spells(&key, "port") {
                    match parse_u16_chars(&value) {
                        None => {
                            return Err(ConfigError::InvalidPort { line: i + 1 });
                        },
                        Some(p) => {
                            port = Some(p);
                        },
                    }
                } else if spells(&key, "datadir") {
                    datadir = Some(value);
                } else {
                    let key = string_of(key.as_slice());
                    return Err(ConfigError::UnrecognizedKey { key, line: i + 1 });
                }
            },
        }
        i = i + 1;
    }
    let secret_hex = match secret_hex {
        None => {
            return Err(ConfigError::MissingSecretKey);
        },
        Some(h) => h,
    };
    let hex_text = string_of(secret_hex.as_slice());
    let bytes = match hex_decode(hex_text.as_str()) {
        None => {
            return Err(ConfigError::SecretKeyNotHex);
        },
        Some(b) => b,
    };
    if bytes.len() != 32 {
        return Err(ConfigError::SecretKeyWrongLength);
    }
    let mut signing_key = [0u8; 32];
    let mut k: usize = 0;
    while k < 32
        invariant
            k <= 32,
            bytes@.len() == 32,
            forall|j: int| 0 <= j < k ==> signing_key@[j] == bytes@[j],
        decreases 32 - k,
    {
        signing_key[k] = bytes[k];
        k = k + 1;
    }
    assert(signing_key@ =~= bytes@);
    let public = public_key_of(&signing_key);
    let digest = sha256_digest(public.as_slice());
    let node_id = NodeId::from_be_bytes(digest);
    let port = match port {
        None => {
            return Err(ConfigError::MissingPort);
        },
        Some(p) => p,
    };
    let datadir = match datadir {
        None => {
            return Err(ConfigError::MissingDatadir);
        },
        Some(d) => string_of(d.as_slice()),
    };
    Ok(ConfigValues { port, datadir, signing_key, node_id })
}

/// One `key=value` line.
pub open spec fn config_line(key: Seq<char>, value: Seq<char>) -> Seq<char> {
    key + seq!['='] + value
}

/// The configuration text written at setup: the secret key in lower-case
/// hexadecimal, the port in decimal and the data directory, one
/// `key=value` line each, with no newline after the last.
pub open spec fn config_text(secret: Seq<u8>, port: u16, datadir: Seq<char>) -> Seq<char> {
    config_line("secret_key"@, hex_encode_spec(secret)) + seq!['\n'] + config_line(
        "port"@,
        decimal(port as nat),
    ) + seq!['\n'] + config_line("datadir"@, datadir)
}

/// The configuration file a new node writes for its secret key, port and
/// (absolute) data directory; see [`config_text`].
pub fn config_content(secret_key: &[u8; 32], port: u16, datadir: &str) -> (r: String)
    ensures
        r@ == config_text(secret_key@, port, datadir@),
{
    let mut out = chars_of("secret_key");
    out.push('=');
    let hex = hex_encode(secret_key.as_slice());
    let mut digits = chars_of(hex.as_str());
    out.append(&mut digits);
    out.push('\n');
    let mut key = chars_of("port");
    out.append(&mut key);
    out.push('=');
    let mut number = decimal_chars(port);
    out.append(&mut number);
    out.push('\n');
    let mut key = chars_of("datadir");
    out.append(&mut key);
    out.push('=');
    let mut dir = chars_of(datadir);
    out.append(&mut dir);
    proof {
        assert(out@ =~= config_text(secret_key@, port, datadir@));
    }
    string_of(out.as_slice())
}

proof fn lemma_config_line(key: Seq<char>, value: Seq<char>, allow_comments: bool)
    requires
        key.len() > 0,
        !key.contains('='),
        !key.contains('\n'),
        !value.contains('\n'),
        key[0] != '#',
        !is_white_space(key[0]),
        value.len() == 0 || !is_white_space(value.last()),
    ensures
        !config_line(key, value).contains('\n'),
        config_line(key, value).last() != '\r',
        trim(config_line(key, value)) == config_line(key, value),
        !skipped_line(config_line(key, value), allow_comments),
        split_once(config_line(key, value), '=') == Some((key, value)),
{
    let l = config_line(key, value);
    assert forall|i: int| 0 <= i < l.len() implies l[i] != '\n' by {
        if i < key.len() {
            assert(l[i] == key[i]);
        } else if i > key.len() {
            assert(l[i] == value[i - key.len() - 1]);
        }
    }
    assert(is_white_space('\r'));
    assert(!is_white_space('='));
    assert(l[0] == key[0]);
    lemma_trim_fixed(l);
    lemma_split_at_first(key, '=', value);
}

/// The configuration a new node writes reads back as the values it was
/// written with: the port, the data directory, the secret key and the
/// node identifier derived from it. The data directory is one line with
/// no surrounding whitespace (as an absolute path normally is).
pub proof fn lemma_config_round_trip(
    secret: Seq<u8>,
    port: u16,
    datadir: Seq<char>,
    allow_comments: bool,
)
    requires
        secret.len() == 32,
        !datadir.contains('\n'),
        trim(datadir) == datadir,
    ensures
        config_spec(config_text(secret, port, datadir), allow_comments) == Ok::<
            ConfigValuesView,
            ConfigErrorView,
        >(
            ConfigValuesView {
                port,
                datadir,
                signing_key: secret,
                node_id: node_id_of(secret),
            },
        ),
{
    reveal_strlit("secret_key");
    reveal_strlit("port");
    reveal_strlit("datadir");
    let h = hex_encode_spec(secret);
    let n = decimal(port as nat);
    lemma_hex_round_trip(secret);
    lemma_decimal_parses(port as nat);
    assert(!is_white_space(h.last()) && !h.contains('\n')) by {
        assert forall|i: int| 0 <= i < h.len() implies h[i] != '\n' by {
            assert('0' <= h[i] <= '9' || 'a' <= h[i] <= 'f');
        }
        assert('0' <= h[h.len() - 1] <= '9' || 'a' <= h[h.len() - 1] <= 'f');
    }
    assert(!is_white_space(n.last()) && !n.contains('\n')) by {
        assert forall|i: int| 0 <= i < n.len() implies n[i] != '\n' by {
            assert('0' <= n[i] <= '9');
        }
        assert('0' <= n[n.len() - 1] <= '9');
    }
    if datadir.len() > 0 {
        lemma_trimmed_ends(datadir);
    }
    lemma_config_line("secret_key"@, h, allow_comments);
    lemma_config_line("port"@, n, allow_comments);
    lemma_config_line("datadir"@, datadir, allow_comments);
    let l1 = config_line("secret_key"@, h);
    let l2 = config_line("port"@, n);
    let l3 = config_line("datadir"@, datadir);
    let text = config_text(secret, port, datadir);
    assert(text =~= l1 + seq!['\n'] + (l2 + seq!['\n'] + l3));
    lemma_lines_cons(l2, l3);
    lemma_lines_single(l3);
    lemma_lines_cons(l1, l2 + seq!['\n'] + l3);
    let ls = lines(text);
    assert(ls =~= seq![l1, l2, l3]);
    let st1: ConfigScan = (Some(h), None, None);
    let st2: ConfigScan = (Some(h), Some(port), None);
    let st3: ConfigScan = (Some(h), Some(port), Some(datadir));
    assert(scan_config(ls, 3, allow_comments, st3) == Ok::<ConfigScan, ConfigErrorView>(st3));
    assert(scan_config(ls, 2, allow_comments, st2) == Ok::<ConfigScan, ConfigErrorView>(st3));
    assert(scan_config(ls, 1, allow_comments, st1) == Ok::<ConfigScan, ConfigErrorView>(st3));
    assert(scan_config(ls, 0, allow_comments, (None, None, None)) == Ok::<
        ConfigScan,
        ConfigErrorView,
    >(st3));
}

/// The fields of a genesis entry `<ip>:<port>:<node_id_hex>` other than the
/// IP address, which is kept as text.
#[derive(Debug)]
pub struct GenesisEntry {
    pub ip: String,
    pub port: u16,
    pub node_id: NodeId,
}

/// A non-blank, non-comment line of a genesis file, numbered from 1, with
/// its fields when they are well formed apart from the IP address.
#[derive(Debug)]
pub struct GenesisLine {
    pub line: usize,
    pub entry: Option<GenesisEntry>,
}

/// An invalid genesis entry, by line number.
#[derive(Clone, Copy, Debug, PartialEq, Eq, Structural)]
pub struct GenesisError {
    pub line: usize,
}

/// The fields of a genesis entry, split from the right so that the colons
/// of an IPv6 address stay in the address: the address text, the port and
/// the 32 bytes of the node identifier written in hexadecimal.
pub open spec fn genesis_fields(line: Seq<char>) -> Option<(Seq<char>, u16, Seq<u8>)> {
    match rsplit_once(line, ':') {
        None => None,
        Some((ip_and_port, id_hex)) => match rsplit_once(ip_and_port, ':') {
            None => None,
            Some((ip, port_text)) => match parse_u16(port_text) {
                None => None,
                Some(port) => match hex_decode_spec(id_hex) {
                    Some(id) => if id.len() == 32 {
                        Some((ip, port, id))
                    } else {
                        None
                    },
                    None => None,
                },
            },
        },
    }
}

/// The entries of the lines `ls[i..]` of a genesis file: each non-blank
/// line not starting with `#`, with its number and fields.
pub open spec fn genesis_spec(ls: Seq<Seq<char>>, i: int) -> Seq<
    (nat, Option<(Seq<char>, u16, Seq<u8>)>),
>
    decreases ls.len() - i,
{
    if i < 0 || i >= ls.len() {
        Seq::empty()
    } else {
        let line = trim(ls[i]);
        if skipped_line(line, true) {
            genesis_spec(ls, i + 1)
        } else {
            seq![((i + 1) as nat, genesis_fields(line))] + genesis_spec(ls, i + 1)
        }
    }
}

/// `g` is the entry that `spec` describes.
pub open spec fn genesis_line_matches(
    g: GenesisLine,
    spec: (nat, Option<(Seq<char>, u16, Seq<u8>)>),
) -> bool {
    &&& g.line == spec.0
    &&& match g.entry {
        None => spec.1 is None,
        Some(e) => spec.1 == Some((e.ip@, e.port, e.node_id@)),
    }
}

/// Fields of one trimmed genesis line (see [`genesis_fields`]).
fn parse_genesis_fields(line: &Vec<char>) -> (r: Option<GenesisEntry>)
    ensures
        match r {
            None => genesis_fields(line@) is None,
            Some(e) => genesis_fields(line@) == Some((e.ip@, e.port, e.node_id@)),
        },
{
    let (ip_and_port, id_hex) = match rsplit_once_chars(line, ':') {
        None => {
            return None;
        },
        Some(parts) => parts,
    };
    let (ip, port_text) = match rsplit_once_chars(&ip_and_port, ':') {
        None => {
            return None;
        },
        Some(parts) => parts,
    };
    let port = match parse_u16_chars(&port_text) {
        None => {
            return None;
        },
        Some(p) => p,
    };
    let id_text = string_of(id_hex.as_slice());
    let id = match hex_decode(id_text.as_str()) {
        None => {
            return None;
        },
        Some(b) => b,
    };
    if id.len() != 32 {
        return None;
    }
    let node_id = NodeId::from_be_slice(id.as_slice());
    Some(GenesisEntry { ip: string_of(ip.as_slice()), port, node_id })
}

/// Reads the entries of a genesis file, one `<ip>:<port>:<node_id_hex>`
/// per line, skipping blank lines and `#` comments. The IP addresses are
/// left as text for [`assemble_genesis`].
pub fn genesis_lines(content: &str) -> (r: Vec<GenesisLine>)
    ensures
        r@.len() == genesis_spec(lines(content@), 0).len(),
        forall|k: int|
            0 <= k < r@.len() ==> genesis_line_matches(
                #[trigger] r@[k],
                genesis_spec(lines(content@), 0)[k],
            ),
{
    let chars = chars_of(content);
    let ls = lines_of(&chars);
    let ghost lsv = lines(content@);
    let mut out: Vec<GenesisLine> = Vec::new();
    let mut i: usize = 0;
    while i < ls.len()
        invariant
            i <= ls@.len(),
            lsv == lines(content@),
            ls@.len() == lsv.len(),
            forall|k: int| 0 <= k < ls@.len() ==> (#[trigger] ls@[k])@ == lsv[k],
            out@.len() + genesis_spec(lsv, i as int).len() == genesis_spec(lsv, 0).len(),
            forall|k: int| 0 <= k < out@.len() ==> genesis_line_matches(
                #[trigger] out@[k],
                genesis_spec(lsv, 0)[k],
            ),
            forall|k: int|
                0 <= k < genesis_spec(lsv, i as int).len() ==> #[trigger] genesis_spec(
                    lsv,
                    i as int,
                )[k] == genesis_spec(lsv, 0)[out@.len() + k],
        decreases ls@.len() - i,
    {
        let line = trim_chars(&ls[i]);
        if line.len() == 0 || line[0] == '#' {
            i = i + 1;
            continue;
        }
        let entry = parse_genesis_fields(&line);
        proof {
            let rest = genesis_spec(lsv, i + 1);
            assert(genesis_spec(lsv, i as int) == seq![((i + 1) as nat, genesis_fields(line@))]
                + rest);
            assert forall|k: int| 0 <= k < rest.len() implies #[trigger] rest[k] == genesis_spec(
                lsv,
                0,
            )[out@.len() + 1 + k] by {
                assert(rest[k] == genesis_spec(lsv, i as int)[k + 1]);
            }
            assert(genesis_spec(lsv, i as int)[0] == genesis_spec(lsv, 0)[out@.len() as int]);
        }
        out.push(GenesisLine { line: i + 1, entry });
        i = i + 1;
    }
    out
}

/// Whether genesis line `k` is unusable: its fields are malformed or its
/// IP address did not parse.
pub open spec fn genesis_bad(gl: Seq<GenesisLine>, ips: Seq<Option<IpAddress>>, k: int) -> bool {
    gl[k].entry is None || ips[k] is None
}

/// Builds the genesis contacts from the entries of [`genesis_lines`] and
/// the parsed IP address of each (`None` where the text is not an IP
/// address): the first unusable line is reported.
pub fn assemble_genesis(gl: &Vec<GenesisLine>, ips: &Vec<Option<IpAddress>>) -> (r: Result<
    Vec<NodeContact>,
    GenesisError,
>)
    requires
        gl@.len() == ips@.len(),
    ensures
        r is Ok <==> forall|k: int| 0 <= k < gl@.len() ==> !genesis_bad(gl@, ips@, k),
        r matches Ok(v) ==> v@.len() == gl@.len() && forall|k: int|
            0 <= k < v@.len() ==> (#[trigger] v@[k]) == (NodeContact {
                port: gl@[k].entry->0.port,
                node_id: gl@[k].entry->0.node_id,
                ip: ips@[k]->0,
            }),
        r matches Err(e) ==> exists|k: int|
            0 <= k < gl@.len() && genesis_bad(gl@, ips@, k) && (forall|j: int|
                0 <= j < k ==> !genesis_bad(gl@, ips@, j)) && e.line == gl@[k].line,
{
    let mut out: Vec<NodeContact> = Vec::new();
    let mut k: usize = 0;
    while k < gl.len()
        invariant
            k <= gl@.len() == ips@.len(),
            out@.len() == k,
            forall|j: int| 0 <= j < k ==> !genesis_bad(gl@, ips@, j),
            forall|j: int|
                0 <= j < k ==> (#[trigger] out@[j]) == (NodeContact {
                    port: gl@[j].entry->0.port,
                    node_id: gl@[j].entry->0.node_id,
                    ip: ips@[j]->0,
                }),
        decreases gl@.len() - k,
    {
        let bad = gl[k].entry.is_none() || ips[k].is_none();
        if bad {
            assert(genesis_bad(gl@, ips@, k as int));
            return Err(GenesisError { line: gl[k].line });
        }
        match (&gl[k].entry, &ips[k]) {
            (Some(e), Some(ip)) => {
                out.push(NodeContact { port: e.port, node_id: e.node_id, ip: *ip });
            },
            _ => {},
        }
        k = k + 1;
    }
    Ok(out)
}

} // verus!
