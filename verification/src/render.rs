//! The template renderer, through the tera engine.
//!
//! The engine instance and its context are opaque outside values; the
//! context's string bindings are modelled by [`context_bindings`], so
//! building a host context has an exact contract. What a render
//! returns is not modelled: it depends on the engine's loaded
//! fragments and on built-in template functions that may read the
//! clock or the environment.

use vstd::prelude::*;

verus! {

#[verifier::external_type_specification]
#[verifier::external_body]
pub struct ExTera(tera::Tera);

#[verifier::external_type_specification]
#[verifier::external_body]
pub struct ExTeraContext(tera::Context);

#[verifier::external_type_specification]
#[verifier::external_body]
pub struct ExTeraError(tera::Error);

/// The string bindings a rendering context holds.
pub uninterp spec fn context_bindings(c: tera::Context) -> Map<Seq<char>, Seq<char>>;

/// A context with no bindings at all.
pub open spec fn no_bindings() -> Map<Seq<char>, Seq<char>> {
    Map::empty()
}

/// Relies on `tera::Context::new`: a fresh context holds no bindings.
#[verifier::external_body]
fn context_new() -> (r: tera::Context)
    ensures
        context_bindings(r) == no_bindings(),
{
    tera::Context::new()
}

/// Relies on `tera::Context::insert`: stores the string value under
/// the key, replacing any earlier binding of that key.
#[verifier::external_body]
fn context_insert_str(c: &mut tera::Context, key: &str, val: &str)
    ensures
        context_bindings(*final(c)) == context_bindings(*old(c)).insert(key@, val@),
{
    c.insert(key.to_string(), val)
}

/// Relies on `tera::Tera::render_str`: renders a one-off template
/// against the context. The text that comes back depends on the
/// engine's loaded fragments and its built-in functions, which may
/// read the clock or the environment, so nothing is promised of it.
#[verifier::external_body]
fn render_str_call(t: &tera::Tera, input: &str, ctx: &tera::Context, autoescape: bool) -> (r:
    Result<String, tera::Error>)
{
    t.render_str(input, ctx, autoescape)
}

/// `m` with every binding of `bs` added in order, later values
/// replacing earlier ones.
pub open spec fn insert_all(
    m: Map<Seq<char>, Seq<char>>,
    bs: Seq<(String, String)>,
) -> Map<Seq<char>, Seq<char>>
    decreases bs.len(),
{
    if bs.len() == 0 {
        m
    } else {
        insert_all(m.insert(bs[0].0@, bs[0].1@), bs.skip(1))
    }
}

/// Adding one more binding continues from the map the earlier bindings
/// built.
pub proof fn lemma_insert_all_push(
    m: Map<Seq<char>, Seq<char>>,
    bs: Seq<(String, String)>,
    p: (String, String),
)
    ensures
        insert_all(m, bs.push(p)) == insert_all(m, bs).insert(p.0@, p.1@),
    decreases bs.len(),
{
    if bs.len() == 0 {
        assert(bs.push(p)[0] == p);
        assert(bs.push(p).skip(1) =~= Seq::<(String, String)>::empty());
        assert(insert_all(m, bs.push(p)) == insert_all(
            m.insert(p.0@, p.1@),
            Seq::<(String, String)>::empty(),
        ));
    } else {
        assert(bs.push(p)[0] == bs[0]);
        assert(bs.push(p).skip(1) =~= bs.skip(1).push(p));
        lemma_insert_all_push(m.insert(bs[0].0@, bs[0].1@), bs.skip(1), p);
        assert(insert_all(m, bs.push(p)) == insert_all(
            m.insert(bs[0].0@, bs[0].1@),
            bs.skip(1).push(p),
        ));
    }
}

/// The bindings of a host context: the host's name under `hostname`,
/// then every extra binding in order.
pub open spec fn host_bindings(
    hostname: Seq<char>,
    extras: Seq<(String, String)>,
) -> Map<Seq<char>, Seq<char>> {
    insert_all(no_bindings().insert("hostname"@, hostname), extras)
}

/// Builds the shared rendering context of one deployment: the host
/// name under the key `hostname`, and the extra bindings after it.
pub fn make_host_context(hostname: &str, extras: &Vec<(String, String)>) -> (r: tera::Context)
    ensures
        context_bindings(r) == host_bindings(hostname@, extras@),
{
    let mut c = context_new();
    context_insert_str(&mut c, "hostname", hostname);
    let ghost base = no_bindings().insert("hostname"@, hostname@);
    let n: usize = extras.len();
    let mut i: usize = 0;
    proof {
        assert(extras@.take(0) =~= Seq::<(String, String)>::empty());
    }
    while i < n
        invariant
            n == extras@.len(),
            i <= n,
            context_bindings(c) == insert_all(base, extras@.take(i as int)),
        decreases n - i,
    {
        let pair = &extras[i];
        context_insert_str(&mut c, pair.0.as_str(), pair.1.as_str());
        proof {
            lemma_insert_all_push(base, extras@.take(i as int), extras@[i as int]);
            assert(extras@.take(i + 1) =~= extras@.take(i as int).push(extras@[i as int]));
        }
        i += 1;
    }
    proof {
        assert(extras@.take(n as int) =~= extras@);
    }
    c
}

/// Renders one template unit against the host context, without
/// autoescaping: deployment output is plain configuration text. A
/// syntax or rendering error is fatal to the walk; the caller reports
/// it and stops.
pub fn render_template(t: &tera::Tera, input: &str, ctx: &tera::Context) -> (r: Result<
    String,
    tera::Error,
>) {
    render_str_call(t, input, ctx, false)
}

} // verus!
