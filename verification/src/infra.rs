//! The shared infrastructure: how it is started, where it is reached, and the
//! proof that it runs under the envelope its profile declares.
use vstd::prelude::*;
use crate::entrant::{memory_of, parse_memory};
use crate::environment::{
    envelope_text, hex_text, sha256_of, Broker, ClickHouse, Environment,
};
use crate::report::{Flag, Infra};
use crate::sampler::NETWORK;
use crate::text::{
    begins, cat2, cat3, cat6, is_space, law_words_are_runs, lines, lines_of, note_each, parse_u64,
    parsed_nat, same, texts, trim, trimmed, words, words_of,
};

verus! {

/// Name of the broker's container.
pub const BROKER: &'static str = "spate-bench-redpanda";

/// Name of the target database's container.
pub const CLICKHOUSE: &'static str = "spate-bench-clickhouse";

/// Where the running infrastructure can be reached, from the host and from inside
/// the bench network.
#[derive(Clone, Debug)]
pub struct Endpoints {
    /// Host-side Kafka bootstrap.
    pub bootstrap: String,
    /// Bootstrap as a container on the network must dial it.
    pub bootstrap_internal: String,
    pub registry_host: String,
    pub registry_port: u16,
    /// Registry URL for a container on the network.
    pub registry_internal: String,
    pub ch_host: String,
    pub ch_port: u16,
    pub ch_user: String,
    pub ch_password: String,
    /// ClickHouse URL for a container on the network.
    pub ch_internal: String,
    /// ClickHouse host for a container on the network.
    pub ch_container: String,
    /// ClickHouse HTTP port for a container on the network.
    pub ch_internal_port: u16,
}

pub open spec fn are_endpoints(e: Endpoints) -> bool {
    &&& e.bootstrap@ == "localhost:9092"@
    &&& e.bootstrap_internal@ == BROKER@ + ":29092"@
    &&& e.registry_host@ == "localhost"@
    &&& e.registry_port == 18081
    &&& e.registry_internal@ == "http://"@ + BROKER@ + ":8081"@
    &&& e.ch_host@ == "localhost"@
    &&& e.ch_port == 18123
    &&& e.ch_user@ == "default"@
    &&& e.ch_password@ == "bench"@
    &&& e.ch_internal@ == "http://"@ + CLICKHOUSE@ + ":8123"@
    &&& e.ch_container@ == CLICKHOUSE@
    &&& e.ch_internal_port == 8123
}

/// Where the infrastructure is reached.
pub fn endpoints() -> (r: Endpoints)
    ensures
        are_endpoints(r),
{
    Endpoints {
        bootstrap: "localhost:9092".to_owned(),
        bootstrap_internal: cat2(BROKER, ":29092"),
        registry_host: "localhost".to_owned(),
        registry_port: 18081,
        registry_internal: cat3("http://", BROKER, ":8081"),
        ch_host: "localhost".to_owned(),
        ch_port: 18123,
        ch_user: "default".to_owned(),
        ch_password: "bench".to_owned(),
        ch_internal: cat3("http://", CLICKHOUSE, ":8123"),
        ch_container: CLICKHOUSE.to_owned(),
        ch_internal_port: 8123,
    }
}

/// Whether containers must be started: they are reused only on request, and only
/// where both run.
pub fn must_start(reuse: bool, broker_running: bool, clickhouse_running: bool) -> (r: bool)
    ensures
        r == !(reuse && broker_running && clickhouse_running),
{
    !(reuse && broker_running && clickhouse_running)
}

/// The arguments of `docker` that start the broker, with its built-in registry.
pub open spec fn broker_args(b: Broker) -> Seq<Seq<char>> {
    seq![
        "run"@,
        "-d"@,
        "--name"@,
        BROKER@,
        "--network"@,
        NETWORK@,
        "-p"@,
        "9092:9092"@,
        "-p"@,
        "18081:8081"@,
        "--cpus="@ + b.cpus@,
        "--memory="@ + b.memory@,
        "--memory-swap="@ + b.memory@,
        b.image@,
        "redpanda"@,
        "start"@,
        "--node-id"@,
        "0"@,
        "--check=false"@,
        "--overprovisioned"@,
        "--kafka-addr"@,
        "EXTERNAL://0.0.0.0:9092,INTERNAL://0.0.0.0:29092"@,
        "--advertise-kafka-addr"@,
        "EXTERNAL://localhost:9092,INTERNAL://"@ + BROKER@ + ":29092"@,
        "--smp"@,
        b.cpus@,
        "--memory"@,
        "4G"@,
        "--reserve-memory"@,
        "0M"@,
    ]
}

/// The arguments of `docker` that start the broker.
pub fn start_broker(b: &Broker) -> (r: Vec<String>)
    ensures
        texts(r@) == broker_args(*b),
{
    let cpus = cat2("--cpus=", b.cpus.as_str());
    let memory = cat2("--memory=", b.memory.as_str());
    let swap = cat2("--memory-swap=", b.memory.as_str());
    let advertise = cat3("EXTERNAL://localhost:9092,INTERNAL://", BROKER, ":29092");
    let mut out: Vec<String> = Vec::new();
    note_each(
        &mut out,
        &[
            "run",
            "-d",
            "--name",
            BROKER,
            "--network",
            NETWORK,
            "-p",
            "9092:9092",
            "-p",
            "18081:8081",
            cpus.as_str(),
            memory.as_str(),
            swap.as_str(),
            b.image.as_str(),
            "redpanda",
            "start",
            "--node-id",
            "0",
            "--check=false",
            "--overprovisioned",
            "--kafka-addr",
            "EXTERNAL://0.0.0.0:9092,INTERNAL://0.0.0.0:29092",
            "--advertise-kafka-addr",
            advertise.as_str(),
            "--smp",
            b.cpus.as_str(),
            "--memory",
            "4G",
            "--reserve-memory",
            "0M",
        ],
    );
    proof {
        assert(texts(out@) =~= broker_args(*b));
    }
    out
}

/// The arguments of `docker` that start the target database. Nothing is mounted
/// from the host.
pub open spec fn clickhouse_args(c: ClickHouse) -> Seq<Seq<char>> {
    seq![
        "run"@,
        "-d"@,
        "--name"@,
        CLICKHOUSE@,
        "--network"@,
        NETWORK@,
        "-p"@,
        "18123:8123"@,
        "-p"@,
        "19000:9000"@,
        "-e"@,
        "CLICKHOUSE_PASSWORD=bench"@,
        "--ulimit"@,
        "nofile=262144:262144"@,
        "--cpus="@ + c.cpus@,
        "--memory="@ + c.memory@,
        "--memory-swap="@ + c.memory@,
        c.image@,
    ]
}

/// The arguments of `docker` that start the target database.
pub fn start_clickhouse(c: &ClickHouse) -> (r: Vec<String>)
    ensures
        texts(r@) == clickhouse_args(*c),
{
    let cpus = cat2("--cpus=", c.cpus.as_str());
    let memory = cat2("--memory=", c.memory.as_str());
    let swap = cat2("--memory-swap=", c.memory.as_str());
    let mut out: Vec<String> = Vec::new();
    note_each(
        &mut out,
        &[
            "run",
            "-d",
            "--name",
            CLICKHOUSE,
            "--network",
            NETWORK,
            "-p",
            "18123:8123",
            "-p",
            "19000:9000",
            "-e",
            "CLICKHOUSE_PASSWORD=bench",
            "--ulimit",
            "nofile=262144:262144",
            cpus.as_str(),
            memory.as_str(),
            swap.as_str(),
            c.image.as_str(),
        ],
    );
    proof {
        assert(texts(out@) =~= clickhouse_args(*c));
    }
    out
}

/// The quota and the period of a `cpu.max` line, unless it sets no quota.
pub open spec fn cpu_max_parts(applied: Seq<char>) -> Option<(Seq<char>, Seq<char>)> {
    let w = words_of(applied);
    if w.len() < 2 || w[0] == "max"@ {
        None
    } else {
        Some((w[0], w[1]))
    }
}

/// The quota and the period of a `cpu.max` line, whose ratio is the cores it caps
/// at.
pub fn cpu_max_fields(applied: &str) -> (r: Option<(String, String)>)
    ensures
        match r {
            Some(p) => cpu_max_parts(applied@) == Some((p.0@, p.1@)),
            None => cpu_max_parts(applied@) is None,
        },
{
    let w = words(applied);
    proof {
        assert(texts(w@).len() == w@.len());
    }
    if w.len() < 2 {
        return None;
    }
    proof {
        assert(texts(w@)[0] == w@[0]@);
        assert(texts(w@)[1] == w@[1]@);
    }
    if same(w[0].as_str(), "max") {
        return None;
    }
    Some((w[0].clone(), w[1].clone()))
}

/// An applied cap is the declared one. `cores_agree` says whether the ratio of an
/// applied quota and period, read as numbers, lies within a hundredth of the
/// declared cores.
pub open spec fn cap_holds(
    what: Seq<char>,
    declared: Seq<char>,
    applied: Seq<char>,
    cores_agree: bool,
) -> bool {
    if what == "cpus"@ {
        cpu_max_parts(applied) is Some && cores_agree
    } else {
        memory_of(declared) is Some && parsed_nat(applied, u64::MAX as nat) == memory_of(declared)
    }
}

pub open spec fn cap_refusal(
    container: Seq<char>,
    what: Seq<char>,
    declared: Seq<char>,
    applied: Seq<char>,
) -> Seq<char> {
    "REFUSED: "@ + container + " declares "@ + what + "="@ + declared + (
    " but is running under "@ + what + "="@ + applied
        + ". The envelope in the environment profile is what every published number is described by, so a container running under a different one cannot produce a publishable result. Recreate the infrastructure (drop --reuse-infra) or correct the profile."@)
}

/// Fails the run where the applied cap is not the declared one.
pub fn assert_cap(
    container: &str,
    what: &str,
    declared: &str,
    applied: &str,
    cores_agree: bool,
) -> (r: Result<(), String>)
    ensures
        match r {
            Ok(_) => cap_holds(what@, declared@, applied@, cores_agree),
            Err(e) => !cap_holds(what@, declared@, applied@, cores_agree) && e@ == cap_refusal(
                container@,
                what@,
                declared@,
                applied@,
            ),
        },
{
    let ok: bool = if same(what, "cpus") {
        cpu_max_fields(applied).is_some() && cores_agree
    } else {
        match (parse_memory(declared), parse_u64(applied)) {
            (Some(d), Some(a)) => a == d,
            _ => false,
        }
    };
    if ok {
        return Ok(());
    }
    let head = cat6("REFUSED: ", container, " declares ", what, "=", declared);
    let mut tail = cat3(" but is running under ", what, "=");
    tail.push_str(applied);
    tail.push_str(
        ". The envelope in the environment profile is what every published number is described by, so a container running under a different one cannot produce a publishable result. Recreate the infrastructure (drop --reuse-infra) or correct the profile.",
    );
    Err(cat2(head.as_str(), tail.as_str()))
}

/// A container without a cap satisfies no declared one: `max` in the place of a
/// quota or of a number of bytes is refused.
pub proof fn law_uncapped_is_refused(
    what: Seq<char>,
    declared: Seq<char>,
    applied: Seq<char>,
    cores_agree: bool,
)
    requires
        what == "cpus"@ ==> words_of(applied).len() > 0 && words_of(applied)[0] == "max"@,
        what != "cpus"@ ==> applied == "max"@,
    ensures
        !cap_holds(what, declared, applied, cores_agree),
{
    reveal_strlit("max");
    if what != "cpus"@ {
        assert(applied[0] == 'm');
        assert(!crate::text::is_digit(applied[0]));
    }
}

/// The version a broker names: the last word of its first line that has one, or
/// all it said.
pub open spec fn version_in(all: Seq<Seq<char>>, i: int, whole: Seq<char>) -> Seq<char>
    decreases all.len() - i,
{
    if i < 0 || i >= all.len() {
        trimmed(whole)
    } else if words_of(all[i]).len() > 0 {
        words_of(all[i]).last()
    } else {
        version_in(all, i + 1, whole)
    }
}

/// The broker's version, from what it said of itself.
pub fn broker_version(said: Option<&str>) -> (r: String)
    ensures
        match said {
            Some(s) => r@ == version_in(lines_of(s@), 0, s@),
            None => r@ == "unknown"@,
        },
{
    match said {
        None => "unknown".to_owned(),
        Some(s) => {
            let all = lines(s);
            let ghost views = lines_of(s@);
            let mut i: usize = 0;
            while i < all.len()
                invariant
                    texts(all@) == views,
                    views == lines_of(s@),
                    said == Some(s),
                    i <= all@.len(),
                    version_in(views, 0, s@) == version_in(views, i as int, s@),
                decreases all@.len() - i,
            {
                let w = words(all[i].as_str());
                proof {
                    assert(views[i as int] == all@[i as int]@);
                    assert(texts(w@).len() == w@.len());
                }
                if w.len() > 0 {
                    proof {
                        assert(texts(w@).last() == w@[w@.len() - 1]@);
                    }
                    return w[w.len() - 1].clone();
                }
                i += 1;
            }
            proof {
                assert(views.len() == all@.len());
            }
            trim(s)
        },
    }
}

/// The target's version, from its reply.
pub fn clickhouse_version(reply: Option<&str>) -> (r: String)
    ensures
        match reply {
            Some(s) => r@ == trimmed(s@),
            None => r@ == "unknown"@,
        },
{
    match reply {
        Some(s) => trim(s),
        None => "unknown".to_owned(),
    }
}

/// What was read back from the running containers.
#[derive(Clone, Debug)]
pub struct Observed {
    /// Containers were reused rather than recreated.
    pub reused: bool,
    pub broker_cpus: String,
    pub broker_memory: String,
    /// The broker's applied cores are those declared.
    pub broker_cores_agree: bool,
    pub broker_version: String,
    pub broker_image_digest: String,
    pub clickhouse_cpus: String,
    pub clickhouse_memory: String,
    /// The database's applied cores are those declared.
    pub clickhouse_cores_agree: bool,
    pub clickhouse_version: String,
    pub clickhouse_image_digest: String,
    /// The measured consume ceiling, where there is one.
    pub ceiling: Option<u64>,
}

pub open spec fn ceiling_of(o: Observed) -> u64 {
    match o.ceiling {
        Some(n) => n,
        None => 0,
    }
}

/// The first cap that does not hold, in the order they are asserted.
pub open spec fn first_cap_refusal(env: Environment, o: Observed) -> Option<Seq<char>> {
    let (b, c) = (env.spec.infra.broker, env.spec.infra.clickhouse);
    if !cap_holds("cpus"@, b.cpus@, o.broker_cpus@, o.broker_cores_agree) {
        Some(cap_refusal(BROKER@, "cpus"@, b.cpus@, o.broker_cpus@))
    } else if !cap_holds("memory"@, b.memory@, o.broker_memory@, true) {
        Some(cap_refusal(BROKER@, "memory"@, b.memory@, o.broker_memory@))
    } else if !cap_holds("cpus"@, c.cpus@, o.clickhouse_cpus@, o.clickhouse_cores_agree) {
        Some(cap_refusal(CLICKHOUSE@, "cpus"@, c.cpus@, o.clickhouse_cpus@))
    } else if !cap_holds("memory"@, c.memory@, o.clickhouse_memory@, true) {
        Some(cap_refusal(CLICKHOUSE@, "memory"@, c.memory@, o.clickhouse_memory@))
    } else {
        None
    }
}

/// What is recorded of the infrastructure.
pub open spec fn is_infra_of(r: Infra, env: Environment, o: Observed) -> bool {
    let i = env.spec.infra;
    &&& r.digest@ == hex_text(sha256_of(vstd::utf8::encode_utf8(envelope_text(i))), 6)
    &&& r.broker@ == i.broker.kind@
    &&& r.broker_version == o.broker_version
    &&& r.broker_image_digest == o.broker_image_digest
    &&& r.broker_cpus == o.broker_cpus
    &&& r.broker_memory == o.broker_memory
    &&& r.clickhouse_version == o.clickhouse_version
    &&& r.clickhouse_image_digest == o.clickhouse_image_digest
    &&& r.clickhouse_cpus == o.clickhouse_cpus
    &&& r.clickhouse_memory == o.clickhouse_memory
    &&& r.partitions == i.partitions
    &&& r.registry@ == i.broker.registry@
    &&& r.ceiling_msgs_per_s == ceiling_of(o)
}

pub open spec fn infra_flags(o: Observed) -> Seq<Flag> {
    (if o.reused {
        seq![Flag::ReusedInfra]
    } else {
        seq![]
    }) + (if ceiling_of(o) == 0 {
        seq![Flag::HeadroomUnproven]
    } else {
        seq![]
    })
}

/// Accepts the running infrastructure, or refuses it at the first cap that is not
/// the declared one. Reuse earns no exemption: caps are asserted either way.
pub fn bring_up(env: &Environment, o: Observed) -> (r: Result<(Endpoints, Infra, Vec<Flag>), String>)
    ensures
        match r {
            Ok(up) => first_cap_refusal(*env, o) is None && are_endpoints(up.0) && is_infra_of(
                up.1,
                *env,
                o,
            ) && up.2@ == infra_flags(o),
            Err(e) => first_cap_refusal(*env, o) == Some(e@),
        },
{
    let b = &env.spec.infra.broker;
    let c = &env.spec.infra.clickhouse;
    if let Err(e) = assert_cap(
        BROKER,
        "cpus",
        b.cpus.as_str(),
        o.broker_cpus.as_str(),
        o.broker_cores_agree,
    ) {
        return Err(e);
    }
    proof {
        reveal_strlit("cpus");
        reveal_strlit("memory");
        assert("memory"@.len() != "cpus"@.len());
    }
    if let Err(e) = assert_cap(
        BROKER,
        "memory",
        b.memory.as_str(),
        o.broker_memory.as_str(),
        true,
    ) {
        return Err(e);
    }
    if let Err(e) = assert_cap(
        CLICKHOUSE,
        "cpus",
        c.cpus.as_str(),
        o.clickhouse_cpus.as_str(),
        o.clickhouse_cores_agree,
    ) {
        return Err(e);
    }
    if let Err(e) = assert_cap(
        CLICKHOUSE,
        "memory",
        c.memory.as_str(),
        o.clickhouse_memory.as_str(),
        true,
    ) {
        return Err(e);
    }
    let ceiling: u64 = match o.ceiling {
        Some(n) => n,
        None => 0,
    };
    let mut flags: Vec<Flag> = Vec::new();
    if o.reused {
        flags.push(Flag::ReusedInfra);
    }
    if ceiling == 0 {
        flags.push(Flag::HeadroomUnproven);
    }
    proof {
        assert(flags@ =~= infra_flags(o));
    }
    let infra = Infra {
        digest: env.infra_digest(),
        broker: b.kind.clone(),
        broker_version: o.broker_version,
        broker_image_digest: o.broker_image_digest,
        broker_cpus: o.broker_cpus,
        broker_memory: o.broker_memory,
        clickhouse_version: o.clickhouse_version,
        clickhouse_image_digest: o.clickhouse_image_digest,
        clickhouse_cpus: o.clickhouse_cpus,
        clickhouse_memory: o.clickhouse_memory,
        partitions: env.spec.infra.partitions,
        registry: b.registry.clone(),
        ceiling_msgs_per_s: ceiling,
    };
    Ok((endpoints(), infra, flags))
}

// ---------------------------------------------------------------------------
// Laws
// ---------------------------------------------------------------------------

/// The record of the infrastructure is what was read back from it, part by part: the
/// broker's figures are the broker's and the database's the database's; what the profile
/// alone knows is the profile's; and no ceiling is a ceiling of zero.
pub proof fn law_infra_is_recorded_as_observed(r: Infra, env: Environment, o: Observed)
    requires
        is_infra_of(r, env, o),
    ensures
        r.broker@ == env.spec.infra.broker.kind@,
        r.registry@ == env.spec.infra.broker.registry@,
        r.partitions == env.spec.infra.partitions,
        r.broker_version@ == o.broker_version@,
        r.broker_image_digest@ == o.broker_image_digest@,
        r.broker_cpus@ == o.broker_cpus@,
        r.broker_memory@ == o.broker_memory@,
        r.clickhouse_version@ == o.clickhouse_version@,
        r.clickhouse_image_digest@ == o.clickhouse_image_digest@,
        r.clickhouse_cpus@ == o.clickhouse_cpus@,
        r.clickhouse_memory@ == o.clickhouse_memory@,
        o.ceiling is Some ==> r.ceiling_msgs_per_s == o.ceiling->Some_0,
        o.ceiling is None ==> r.ceiling_msgs_per_s == 0,
{
}

/// The infrastructure is accepted exactly where all four of its caps are those declared:
/// for the broker and for the database, a CPU quota that agrees with the declared cores,
/// and a memory limit of the declared number of bytes.
pub proof fn law_accepted_infra_is_capped_as_declared(env: Environment, o: Observed)
    ensures
        first_cap_refusal(env, o) is None <==> {
            let (b, c) = (env.spec.infra.broker, env.spec.infra.clickhouse);
            &&& words_of(o.broker_cpus@).len() >= 2 && words_of(o.broker_cpus@)[0] != "max"@
            &&& o.broker_cores_agree
            &&& memory_of(b.memory@) is Some
            &&& parsed_nat(o.broker_memory@, u64::MAX as nat) == memory_of(b.memory@)
            &&& words_of(o.clickhouse_cpus@).len() >= 2 && words_of(o.clickhouse_cpus@)[0] != "max"@
            &&& o.clickhouse_cores_agree
            &&& memory_of(c.memory@) is Some
            &&& parsed_nat(o.clickhouse_memory@, u64::MAX as nat) == memory_of(c.memory@)
        },
{
    reveal_strlit("cpus");
    reveal_strlit("memory");
    assert("memory"@.len() != "cpus"@.len());
}

/// A CPU cap is its quota and its period, in that order.
pub proof fn law_cap_is_quota_and_period(quota: Seq<char>, period: Seq<char>)
    requires
        quota.len() > 0 && period.len() > 0,
        forall|i: int| 0 <= i < quota.len() ==> !is_space(#[trigger] quota[i]),
        forall|i: int| 0 <= i < period.len() ==> !is_space(#[trigger] period[i]),
        quota != "max"@,
    ensures
        cpu_max_parts(quota + seq![' '] + period) == Some((quota, period)),
{
    law_words_are_runs(quota, ' ', period);
    law_words_are_runs(period, ' ', seq![]);
    let w = words_of(quota + seq![' '] + period);
    assert(w == seq![quota] + seq![period]);
    assert(w[0] == quota && w[1] == period);
}

/// Reused containers are flagged, and so is a run without a ceiling; nothing else is.
pub proof fn law_infra_flags_say_what_is_unproven(o: Observed, f: Flag)
    ensures
        infra_flags(o).contains(f) <==> (f == Flag::ReusedInfra && o.reused) || (f
            == Flag::HeadroomUnproven && (o.ceiling is None || o.ceiling == Some(0u64))),
{
    let all = infra_flags(o);
    if o.reused {
        assert(all[0] == Flag::ReusedInfra);
    }
    if ceiling_of(o) == 0 {
        assert(all.last() == Flag::HeadroomUnproven);
        assert(all[all.len() - 1] == Flag::HeadroomUnproven);
    }
}

/// The broker and the database are started under their own names on the bench network,
/// each with its own CPU cap, its own memory cap and no swap beyond it, from its own
/// image.
pub proof fn law_infra_starts_capped(b: Broker, c: ClickHouse)
    ensures
        ({
            let a = broker_args(b);
            &&& a[2] == "--name"@ && a[3] == "spate-bench-redpanda"@
            &&& a[4] == "--network"@ && a[5] == "spate-bench-net"@
            &&& a[10] == "--cpus="@ + b.cpus@
            &&& a[11] == "--memory="@ + b.memory@
            &&& a[12] == "--memory-swap="@ + b.memory@
            &&& a[13] == b.image@
            &&& a[24] == "--smp"@ && a[25] == b.cpus@
        }),
        ({
            let a = clickhouse_args(c);
            &&& a[2] == "--name"@ && a[3] == "spate-bench-clickhouse"@
            &&& a[4] == "--network"@ && a[5] == "spate-bench-net"@
            &&& a[14] == "--cpus="@ + c.cpus@
            &&& a[15] == "--memory="@ + c.memory@
            &&& a[16] == "--memory-swap="@ + c.memory@
            &&& a[17] == c.image@
            &&& a.len() == 18
        }),
{
}

/// A container of the bench network reaches the broker, the registry and the database by
/// the names and ports that they listen under, and the host by the ports that they
/// publish.
pub proof fn law_endpoints_are_those_published(e: Endpoints, b: Broker, c: ClickHouse)
    requires
        are_endpoints(e),
    ensures
        e.bootstrap@ == "localhost:9092"@,
        broker_args(b)[7] == "9092:9092"@,
        e.bootstrap_internal@ == "spate-bench-redpanda"@ + ":29092"@,
        e.registry_host@ == "localhost"@ && e.registry_port == 18081,
        broker_args(b)[9] == "18081:8081"@,
        e.registry_internal@ == "http://"@ + "spate-bench-redpanda"@ + ":8081"@,
        e.ch_host@ == "localhost"@ && e.ch_port == 18123,
        clickhouse_args(c)[7] == "18123:8123"@,
        e.ch_internal@ == "http://"@ + "spate-bench-clickhouse"@ + ":8123"@,
        e.ch_container@ == "spate-bench-clickhouse"@ && e.ch_internal_port == 8123,
        e.ch_user@ == "default"@ && e.ch_password@ == "bench"@,
{
}

/// The broker's version is the last word of the first line that has words; without one it
/// is all that was said.
pub proof fn law_version_is_the_last_word_of_the_first_line(
    all: Seq<Seq<char>>,
    from: int,
    whole: Seq<char>,
    k: int,
)
    requires
        0 <= from <= k < all.len(),
        words_of(all[k]).len() > 0,
        forall|j: int| from <= j < k ==> words_of(#[trigger] all[j]).len() == 0,
    ensures
        version_in(all, from, whole) == words_of(all[k]).last(),
    decreases k - from,
{
    if from < k {
        assert(words_of(all[from]).len() == 0);
        law_version_is_the_last_word_of_the_first_line(all, from + 1, whole, k);
    }
}

/// A refused cap is told by its container, then as declared, then as applied.
pub proof fn law_refusal_tells_both_caps(
    container: Seq<char>,
    what: Seq<char>,
    declared: Seq<char>,
    applied: Seq<char>,
)
    ensures
        begins(
            cap_refusal(container, what, declared, applied),
            "REFUSED: "@ + container + " declares "@ + what + "="@ + declared
                + " but is running under "@ + what + "="@ + applied,
        ),
{
    let head = "REFUSED: "@ + container + " declares "@ + what + "="@ + declared
        + " but is running under "@ + what + "="@ + applied;
    assert(cap_refusal(container, what, declared, applied).take(head.len() as int) =~= head);
}

} // verus!
