//! Environment profiles: the unit of comparability for hardware, and the one
//! source of the infrastructure envelope.
use vstd::prelude::*;
use sha2::{Digest, Sha256};
use crate::entrant::{debug_quoted, quoted};
use crate::results::{join_path, path_join};
use crate::text::{
    cat2, cat5, cat6, dec_int, decimal_int, joined, law_integers_are_plain, law_join_is_undone,
    lemma_joined_first, same, split_at_each,
};

verus! {

/// The percentage of the measured ceiling above which an arm is infra-bound.
pub const HEADROOM_LIMIT: u64 = 70;

/// A loaded environment profile and its content digest.
#[derive(Clone, Debug)]
pub struct Environment {
    pub spec: Profile,
    /// Hash of the file's bytes, recorded on every result.
    pub digest: String,
    /// Directory the profile was loaded from.
    pub dir: String,
}

/// The profile's contents.
#[derive(Clone, Debug)]
pub struct Profile {
    /// Stable identifier, equal to the file stem.
    pub id: String,
    /// Whether numbers from here are authoritative.
    pub class: Class,
    pub host: Host,
    /// Shared infrastructure, identical for every arm.
    pub infra: Infra,
    /// Where the measured ceiling lives.
    pub ceiling: CeilingRef,
}

/// How much weight a reader should give numbers from this environment.
#[derive(Clone, Copy, Debug, PartialEq, Eq, Structural)]
pub enum Class {
    /// Dedicated hardware; numbers stand on their own.
    Authoritative,
    /// A shared or virtualised host.
    Indicative,
    /// Synthetic data for development. Never published.
    Fixture,
}

/// Hardware description.
#[derive(Clone, Debug)]
pub struct Host {
    pub description: String,
    pub cpu: String,
    pub cores: u32,
    pub core_layout: String,
    pub memory: String,
    pub os: String,
    pub arch: String,
    pub vm_cpus: u32,
    pub vm_memory: String,
    pub caveats: String,
}

/// Shared infrastructure, outside every arm's envelope.
#[derive(Clone, Debug)]
pub struct Infra {
    /// Topic partition count.
    pub partitions: i32,
    pub broker: Broker,
    pub clickhouse: ClickHouse,
}

/// The broker and its built-in registry.
#[derive(Clone, Debug)]
pub struct Broker {
    pub kind: String,
    pub image: String,
    pub cpus: String,
    pub memory: String,
    pub registry: String,
}

/// The ingestion target.
#[derive(Clone, Debug)]
pub struct ClickHouse {
    pub image: String,
    pub cpus: String,
    pub memory: String,
}

/// Where the measured ceiling for this environment lives.
#[derive(Clone, Debug)]
pub struct CeilingRef {
    /// Path relative to the environments directory.
    pub file: String,
}

/// The measured consume ceiling, in messages per second.
#[derive(Clone, Copy, Debug, PartialEq, Eq, Structural)]
pub struct Ceiling {
    pub consume_msgs_per_s: u64,
}

/// The 32 bytes of the SHA-256 hash of `bytes`.
pub uninterp spec fn sha256_of(bytes: Seq<u8>) -> Seq<u8>;

/// `sha2::Sha256::digest`: the hash is named by [`sha256_of`], and has 32 bytes.
#[verifier::external_body]
fn sha256(bytes: &[u8]) -> (r: Vec<u8>)
    ensures
        r@ == sha256_of(bytes@),
        r@.len() == 32,
{
    Sha256::digest(bytes).to_vec()
}

/// The hexadecimal digit of a number below sixteen.
pub open spec fn hex_digit(n: int) -> char {
    if n < 10 {
        ((48 + n) as u8) as char
    } else {
        ((87 + n) as u8) as char
    }
}

/// Two lower-case hexadecimal digits for each of the first `n` bytes.
pub open spec fn hex_text(bytes: Seq<u8>, n: nat) -> Seq<char>
    decreases n,
{
    if n == 0 {
        seq![]
    } else {
        hex_text(bytes, (n - 1) as nat).push(hex_digit(bytes[n - 1] as int / 16)).push(
            hex_digit(bytes[n - 1] as int % 16),
        )
    }
}

fn hex_char(n: u8) -> (r: char)
    requires
        n < 16,
    ensures
        r == hex_digit(n as int),
{
    if n < 10 {
        (48 + n) as char
    } else {
        (87 + n) as char
    }
}

/// The text of the first six bytes of a hash.
pub fn six_hex(hash: &Vec<u8>) -> (r: String)
    requires
        hash@.len() >= 6,
    ensures
        r@ == hex_text(hash@, 6),
        r@.len() == 12,
{
    let mut out = String::new();
    let mut i: usize = 0;
    proof {
        assert(out@ =~= hex_text(hash@, 0));
    }
    while i < 6
        invariant
            i <= 6,
            hash@.len() >= 6,
            out@ == hex_text(hash@, i as nat),
            out@.len() == 2 * i,
        decreases 6 - i,
    {
        out.push(hex_char(hash[i] / 16));
        out.push(hex_char(hash[i] % 16));
        i += 1;
    }
    out
}

/// Twelve hexadecimal characters of SHA-256: enough to identify, short enough to
/// read.
pub fn short_digest(bytes: &[u8]) -> (r: String)
    ensures
        r@ == hex_text(sha256_of(bytes@), 6),
        r@.len() == 12,
{
    six_hex(&sha256(bytes))
}

/// What the digest of an envelope is taken over.
pub open spec fn envelope_text(i: Infra) -> Seq<char> {
    i.broker.kind@ + "|"@ + i.broker.cpus@ + "|"@ + i.broker.memory@ + "|"@ + (i.clickhouse.cpus@
        + "|"@ + i.clickhouse.memory@ + "|"@ + decimal_int(i.partitions as int))
}

/// The path of the profile named `id`.
pub open spec fn profile_path(dir: Seq<char>, id: Seq<char>) -> Seq<char> {
    path_join(dir, id + ".toml"@)
}

impl Environment {
    /// The profile named `id`, from the text of its file and what it parsed to.
    /// A profile that declares another id is refused: two profiles could claim
    /// one identity.
    pub fn load(dir: &str, id: &str, src: &str, spec: Profile) -> (r: Result<Self, String>)
        ensures
            match r {
                Ok(e) => spec.id@ == id@ && e.spec == spec && e.dir@ == dir@ && e.digest@
                    == hex_text(sha256_of(vstd::utf8::encode_utf8(src@)), 6),
                Err(m) => spec.id@ != id@ && m@ == profile_path(dir@, id@) + ": declares id "@
                    + debug_quoted(spec.id@) + " but is named "@ + debug_quoted(id@),
            },
    {
        if !same(spec.id.as_str(), id) {
            let path = join_path(dir, cat2(id, ".toml").as_str());
            return Err(
                cat5(
                    path.as_str(),
                    ": declares id ",
                    quoted(spec.id.as_str()).as_str(),
                    " but is named ",
                    quoted(id).as_str(),
                ),
            );
        }
        Ok(Environment { spec, digest: short_digest(src.as_bytes()), dir: dir.to_owned() })
    }

    /// Where the measured ceiling for this environment is.
    pub fn ceiling_path(&self) -> (r: String)
        ensures
            r@ == path_join(self.dir@, self.spec.ceiling.file@),
    {
        join_path(self.dir.as_str(), self.spec.ceiling.file.as_str())
    }

    /// Digest over the envelope-defining subset of the infrastructure: what
    /// splits a comparability group is its shape, and never a version.
    pub fn infra_digest(&self) -> (r: String)
        ensures
            r@ == hex_text(
                sha256_of(vstd::utf8::encode_utf8(envelope_text(self.spec.infra))),
                6,
            ),
    {
        let i = &self.spec.infra;
        let head = cat6(
            i.broker.kind.as_str(),
            "|",
            i.broker.cpus.as_str(),
            "|",
            i.broker.memory.as_str(),
            "|",
        );
        let tail = cat5(
            i.clickhouse.cpus.as_str(),
            "|",
            i.clickhouse.memory.as_str(),
            "|",
            dec_int(i.partitions as i128).as_str(),
        );
        short_digest(cat2(head.as_str(), tail.as_str()).as_str().as_bytes())
    }

    /// Whether results from here may be published.
    pub fn is_publishable(&self) -> (r: bool)
        ensures
            r == (self.spec.class != Class::Fixture),
    {
        self.spec.class != Class::Fixture
    }
}

/// Images, and so versions, do not enter the digest of an envelope.
pub proof fn law_versions_do_not_split_groups(a: Infra, b: Infra)
    requires
        a.broker.kind@ == b.broker.kind@,
        a.broker.cpus@ == b.broker.cpus@,
        a.broker.memory@ == b.broker.memory@,
        a.clickhouse.cpus@ == b.clickhouse.cpus@,
        a.clickhouse.memory@ == b.clickhouse.memory@,
        a.partitions == b.partitions,
    ensures
        envelope_text(a) == envelope_text(b),
{
}

/// The value of a hexadecimal digit.
pub open spec fn hex_value(c: char) -> int {
    if '0' <= c <= '9' {
        c as u32 - '0' as u32
    } else {
        c as u32 - 'a' as u32 + 10
    }
}

/// A digest is read back from its text: two digits to a byte, the high one first, in
/// order, and in lower case.
pub proof fn law_digest_text_reads_back(bytes: Seq<u8>, n: nat, i: int)
    requires
        n <= bytes.len(),
        0 <= i < n,
    ensures
        hex_text(bytes, n).len() == 2 * n,
        ({
            let (h, l) = (hex_text(bytes, n)[2 * i], hex_text(bytes, n)[2 * i + 1]);
            &&& '0' <= h <= '9' || 'a' <= h <= 'f'
            &&& '0' <= l <= '9' || 'a' <= l <= 'f'
            &&& 16 * hex_value(h) + hex_value(l) == bytes[i]
        }),
    decreases n,
{
    let m = (n - 1) as nat;
    lemma_hex_len(bytes, m);
    if i < m {
        law_digest_text_reads_back(bytes, m, i);
    }
}

proof fn lemma_hex_len(bytes: Seq<u8>, n: nat)
    ensures
        hex_text(bytes, n).len() == 2 * n,
    decreases n,
{
    if n > 0 {
        lemma_hex_len(bytes, (n - 1) as nat);
    }
}

/// The digest of an envelope is taken over each of its parts: the kind of broker, the CPU
/// and memory of the broker, the CPU and memory of the target database, and the
/// partitions. Where no part holds the separator, two envelopes that differ in one of
/// them have different texts.
pub proof fn law_envelope_tells_its_parts(i: Infra)
    requires
        forall|k: int| 0 <= k < i.broker.kind@.len() ==> #[trigger] i.broker.kind@[k] != '|',
        forall|k: int| 0 <= k < i.broker.cpus@.len() ==> #[trigger] i.broker.cpus@[k] != '|',
        forall|k: int| 0 <= k < i.broker.memory@.len() ==> #[trigger] i.broker.memory@[k] != '|',
        forall|k: int| 0 <= k < i.clickhouse.cpus@.len() ==> #[trigger] i.clickhouse.cpus@[k] != '|',
        forall|k: int|
            0 <= k < i.clickhouse.memory@.len() ==> #[trigger] i.clickhouse.memory@[k] != '|',
    ensures
        split_at_each(envelope_text(i), '|') == seq![
            i.broker.kind@,
            i.broker.cpus@,
            i.broker.memory@,
            i.clickhouse.cpus@,
            i.clickhouse.memory@,
            decimal_int(i.partitions as int),
        ],
{
    reveal_strlit("|");
    assert("|"@ =~= seq!['|']);
    let last = decimal_int(i.partitions as int);
    let parts = seq![
        i.broker.kind@,
        i.broker.cpus@,
        i.broker.memory@,
        i.clickhouse.cpus@,
        i.clickhouse.memory@,
        last,
    ];
    law_integers_are_plain(i.partitions as int);
    assert forall|p: int, k: int| 0 <= p < parts.len() && 0 <= k < parts[p].len() implies
        #[trigger] parts[p][k] != '|' by {
        assert(p == 0 || p == 1 || p == 2 || p == 3 || p == 4 || p == 5);
        if p == 5 {
            assert('0' <= last[k] <= '9' || last[k] == '-');
        }
    }
    law_join_is_undone(parts, '|');
    let sep = seq!['|'];
    let r4 = seq![last];
    let r3 = seq![i.clickhouse.memory@] + r4;
    let r2 = seq![i.clickhouse.cpus@] + r3;
    let r1 = seq![i.broker.memory@] + r2;
    let r0 = seq![i.broker.cpus@] + r1;
    lemma_joined_first(i.clickhouse.memory@, r4, sep);
    lemma_joined_first(i.clickhouse.cpus@, r3, sep);
    lemma_joined_first(i.broker.memory@, r2, sep);
    lemma_joined_first(i.broker.cpus@, r1, sep);
    lemma_joined_first(i.broker.kind@, r0, sep);
    assert(parts =~= seq![i.broker.kind@] + r0);
    assert(joined(r4, sep) == last);
    assert(joined(parts, sep) =~= envelope_text(i));
}

} // verus!
