//! The password protocol of `opaque_ke`.
//!
//! The states and the messages of the protocol are kept as the bytes that
//! `opaque_ke` writes them in. A step that draws random numbers has no name for
//! its result; what it can give is a relation between its input and output, or
//! a set of outputs.

use opaque_ke::ciphersuite::CipherSuite;
use vstd::prelude::*;

verus! {

#[verifier::external_type_specification]
#[verifier::external_body]
pub struct ExRistretto255(opaque_ke::Ristretto255);

#[verifier::external_type_specification]
#[verifier::external_body]
pub struct ExArgon2<'key>(opaque_ke::argon2::Argon2<'key>);

/// The algorithms of the password protocol, but for the key exchange, which is
/// triple Diffie-Hellman over the same group with SHA-512 wherever the suite
/// is used.
#[verifier::reject_recursive_types(K)]
pub struct LanFlowCipherSuite<K> {
    key_exchange: core::marker::PhantomData<K>,
}

impl<K> CipherSuite for LanFlowCipherSuite<K> where
    K: opaque_ke::key_exchange::KeyExchange<Group = opaque_ke::Ristretto255>,
 {
    type OprfCs = opaque_ke::Ristretto255;

    type KeyExchange = K;

    type Ksf = opaque_ke::argon2::Argon2<'static>;
}

/// Whether bytes are a server's keys, as `ServerSetup::deserialize` reads
/// them, or what its error says.
pub uninterp spec fn setup_check(bytes: Seq<u8>) -> Result<(), Seq<char>>;

/// `ServerSetup::new` draws new keys; what `ServerSetup::serialize` writes,
/// `ServerSetup::deserialize` reads.
#[verifier::external_body]
pub(crate) fn new_setup() -> (bytes: Vec<u8>)
    ensures
        setup_check(bytes@) is Ok,
{
    let setup = opaque_ke::ServerSetup::<LanFlowCipherSuite<opaque_ke::TripleDh<opaque_ke::Ristretto255, sha2::Sha512>>>::new(
        &mut rand_core::OsRng,
    );
    setup.serialize().to_vec()
}

/// `ServerSetup::deserialize` depends on the bytes alone.
#[verifier::external_body]
pub(crate) fn check_setup(bytes: &[u8]) -> (checked: Result<(), String>)
    ensures
        match setup_check(bytes@) {
            Ok(_) => checked is Ok,
            Err(text) => checked matches Err(t) && t@ == text,
        },
{
    match opaque_ke::ServerSetup::<LanFlowCipherSuite<opaque_ke::TripleDh<opaque_ke::Ristretto255, sha2::Sha512>>>::deserialize(bytes) {
        Ok(_) => Ok(()),
        Err(error) => Err(error.to_string()),
    }
}

/// Whether `ClientRegistration::start` can give the state and the request for
/// a password.
pub uninterp spec fn registration_started(
    password: Seq<u8>,
    state: Seq<u8>,
    request: Seq<u8>,
) -> bool;

/// `ClientRegistration::start` hides the password behind a random number. It
/// hashes the password onto the group, which works for every password.
#[verifier::external_body]
pub(crate) fn start_registration(password: &[u8]) -> (started: Result<(Vec<u8>, Vec<u8>), String>)
    ensures
        started is Ok,
        started matches Ok((state, request)) ==> registration_started(
            password@,
            state@,
            request@,
        ),
{
    let result = opaque_ke::ClientRegistration::<LanFlowCipherSuite<opaque_ke::TripleDh<opaque_ke::Ristretto255, sha2::Sha512>>>::start(
        &mut rand_core::OsRng,
        password,
    );
    match result {
        Ok(start) => Ok((start.state.serialize().to_vec(), start.message.serialize().to_vec())),
        Err(error) => Err(error.to_string()),
    }
}

/// What a server with the given keys answers to a registration request for an
/// identity, or what the error says.
pub uninterp spec fn registration_response(
    setup: Seq<u8>,
    request: Seq<u8>,
    id: Seq<u8>,
) -> Result<Seq<u8>, Seq<char>>;

/// `ServerRegistration::start` depends on its arguments alone.
#[verifier::external_body]
pub(crate) fn answer_registration(setup: &[u8], request: &[u8], id: &[u8]) -> (response: Result<
    Vec<u8>,
    String,
>)
    ensures
        match registration_response(setup@, request@, id@) {
            Ok(expected) => response matches Ok(r) && r@ == expected,
            Err(text) => response matches Err(t) && t@ == text,
        },
{
    let setup = opaque_ke::ServerSetup::<LanFlowCipherSuite<opaque_ke::TripleDh<opaque_ke::Ristretto255, sha2::Sha512>>>::deserialize(setup)
        .map_err(|error| error.to_string())?;
    let request = opaque_ke::RegistrationRequest::deserialize(request)
        .map_err(|error| error.to_string())?;
    let result = opaque_ke::ServerRegistration::<LanFlowCipherSuite<opaque_ke::TripleDh<opaque_ke::Ristretto255, sha2::Sha512>>>::start(
        &setup,
        request,
        id,
    ).map_err(|error| error.to_string())?;
    Ok(result.message.serialize().to_vec())
}

/// Whether `ClientRegistration::finish` can come to the outcome for a state, a
/// password and a response: an upload, or an error with the given text.
pub uninterp spec fn registration_finished(
    state: Seq<u8>,
    password: Seq<u8>,
    response: Seq<u8>,
    outcome: Result<Seq<u8>, Seq<char>>,
) -> bool;

/// The model of what a step gives.
pub open spec fn outcome_of(result: Result<Vec<u8>, String>) -> Result<Seq<u8>, Seq<char>> {
    match result {
        Ok(bytes) => Ok(bytes@),
        Err(text) => Err(text@),
    }
}

/// `ClientRegistration::finish` seals the client's key under the password. The
/// key is made of a random number, so one input can have several outcomes, and
/// no success is promised: a number that gives no key is refused. A password of
/// more than 65535 bytes is always refused.
#[verifier::external_body]
pub(crate) fn finish_registration(state: &[u8], password: &[u8], response: &[u8]) -> (upload: Result<
    Vec<u8>,
    String,
>)
    ensures
        registration_finished(state@, password@, response@, outcome_of(upload)),
        password@.len() > 0xffff ==> upload is Err,
{
    let state = opaque_ke::ClientRegistration::<LanFlowCipherSuite<opaque_ke::TripleDh<opaque_ke::Ristretto255, sha2::Sha512>>>::deserialize(state)
        .map_err(|error| error.to_string())?;
    let response = opaque_ke::RegistrationResponse::deserialize(response)
        .map_err(|error| error.to_string())?;
    let params = opaque_ke::ClientRegistrationFinishParameters::default();
    let result = state.finish(&mut rand_core::OsRng, password, response, params)
        .map_err(|error| error.to_string())?;
    Ok(result.message.serialize().to_vec())
}

/// The record that a server keeps of an upload, or what the error says.
pub uninterp spec fn registration_record(upload: Seq<u8>) -> Result<Seq<u8>, Seq<char>>;

/// `ServerRegistration::finish` depends on the upload alone.
#[verifier::external_body]
pub(crate) fn keep_registration(upload: &[u8]) -> (record: Result<Vec<u8>, String>)
    ensures
        match registration_record(upload@) {
            Ok(expected) => record matches Ok(r) && r@ == expected,
            Err(text) => record matches Err(t) && t@ == text,
        },
{
    let upload = opaque_ke::RegistrationUpload::<LanFlowCipherSuite<opaque_ke::TripleDh<opaque_ke::Ristretto255, sha2::Sha512>>>::deserialize(upload)
        .map_err(|error| error.to_string())?;
    Ok(opaque_ke::ServerRegistration::finish(upload).serialize().to_vec())
}

/// Whether a registration that began with a state and a request, and whose
/// client came to the outcome, ends with the result: a record, or what an
/// error says.
pub open spec fn registration_ends(
    setup: Seq<u8>,
    id: Seq<u8>,
    password: Seq<u8>,
    state: Seq<u8>,
    request: Seq<u8>,
    outcome: Result<Seq<u8>, Seq<char>>,
    result: Result<Seq<u8>, Seq<char>>,
) -> bool {
    registration_started(password, state, request) && match registration_response(
        setup,
        request,
        id,
    ) {
        Ok(response) => registration_finished(state, password, response, outcome) && result
            == match outcome {
            Ok(upload) => registration_record(upload),
            Err(text) => Err(text),
        },
        Err(text) => result == Err::<Seq<u8>, Seq<char>>(text),
    }
}

/// Whether registering a password for an identity with a server can give the
/// result: the four steps of a registration, one after the other.
pub open spec fn registration_gives(
    setup: Seq<u8>,
    id: Seq<u8>,
    password: Seq<u8>,
    result: Result<Seq<u8>, Seq<char>>,
) -> bool {
    exists|state: Seq<u8>, request: Seq<u8>, outcome: Result<Seq<u8>, Seq<char>>| #[trigger]
        registration_ends(setup, id, password, state, request, outcome, result)
}

/// Whether a record can come from registering a password for an identity with
/// a server.
pub open spec fn registered(
    setup: Seq<u8>,
    id: Seq<u8>,
    password: Seq<u8>,
    record: Seq<u8>,
) -> bool {
    registration_gives(setup, id, password, Ok(record))
}

/// Whether `ClientLogin::start` can give the state and the request for a
/// password.
pub uninterp spec fn login_started(password: Seq<u8>, state: Seq<u8>, request: Seq<u8>) -> bool;

/// `ClientLogin::start` hides the password behind a random number and draws a
/// key. It hashes the password onto the group, which works for every password.
#[verifier::external_body]
pub(crate) fn start_login(password: &[u8]) -> (started: Result<(Vec<u8>, Vec<u8>), String>)
    ensures
        started is Ok,
        started matches Ok((state, request)) ==> login_started(password@, state@, request@),
{
    let result = opaque_ke::ClientLogin::<LanFlowCipherSuite<opaque_ke::TripleDh<opaque_ke::Ristretto255, sha2::Sha512>>>::start(
        &mut rand_core::OsRng,
        password,
    );
    match result {
        Ok(start) => Ok((start.state.serialize().to_vec(), start.message.serialize().to_vec())),
        Err(error) => Err(error.to_string()),
    }
}

/// The responses and states that `ServerLogin::start` can give, one for each
/// key that it draws, or what its error says.
pub uninterp spec fn login_answers(
    setup: Seq<u8>,
    record: Seq<u8>,
    request: Seq<u8>,
    id: Seq<u8>,
) -> Result<Set<(Seq<u8>, Seq<u8>)>, Seq<char>>;

/// Whether the response and the state can answer a login request.
pub open spec fn login_answered(
    setup: Seq<u8>,
    record: Seq<u8>,
    request: Seq<u8>,
    id: Seq<u8>,
    response: Seq<u8>,
    state: Seq<u8>,
) -> bool {
    login_answers(setup, record, request, id) matches Ok(answers) && answers.contains(
        (response, state),
    )
}

/// What a client makes of a server's response: a closing message and a session
/// key; nothing where the password is found wrong; what the error says where
/// the response cannot be read.
pub uninterp spec fn client_finished(
    state: Seq<u8>,
    password: Seq<u8>,
    response: Seq<u8>,
) -> Result<Option<(Seq<u8>, Seq<u8>)>, Seq<char>>;

/// What a server makes of a client's closing message: a session key; nothing
/// where it does not fit; what the error says where it cannot be read.
pub uninterp spec fn server_finished(state: Seq<u8>, finalization: Seq<u8>) -> Result<
    Option<Seq<u8>>,
    Seq<char>,
>;

/// `ServerLogin::start` answers a login request. Whether it does, and what its
/// error says, depends on its arguments alone. Where the record was made
/// for the same identity with the password that the client began with, the
/// client accepts the response, the server accepts the client's closing
/// message, and both have the same session key. Nothing is said of the answer
/// to another password.
#[verifier::external_body]
pub(crate) fn answer_login(setup: &[u8], record: &[u8], request: &[u8], id: &[u8]) -> (answer: Result<
    (Vec<u8>, Vec<u8>),
    String,
>)
    ensures
        match login_answers(setup@, record@, request@, id@) {
            Ok(answers) => answer matches Ok((response, state)) && answers.contains(
                (response@, state@),
            ),
            Err(text) => answer matches Err(t) && t@ == text,
        },
        answer matches Ok((response, state)) ==> keys_agree(
            setup@,
            record@,
            request@,
            id@,
            response@,
            state@,
        ),
{
    let setup = opaque_ke::ServerSetup::<LanFlowCipherSuite<opaque_ke::TripleDh<opaque_ke::Ristretto255, sha2::Sha512>>>::deserialize(setup)
        .map_err(|error| error.to_string())?;
    let record = opaque_ke::ServerRegistration::deserialize(record)
        .map_err(|error| error.to_string())?;
    let request = opaque_ke::CredentialRequest::deserialize(request)
        .map_err(|error| error.to_string())?;
    let params = opaque_ke::ServerLoginParameters::default();
    let mut rng = rand_core::OsRng;
    let start = opaque_ke::ServerLogin::start(&mut rng, &setup, Some(record), request, id, params)
        .map_err(|error| error.to_string())?;
    Ok((start.message.serialize().to_vec(), start.state.serialize().to_vec()))
}

/// Whether a client with the registered password accepts the response and
/// comes to the same session key as the server.
pub open spec fn keys_agree(
    setup: Seq<u8>,
    record: Seq<u8>,
    request: Seq<u8>,
    id: Seq<u8>,
    response: Seq<u8>,
    state: Seq<u8>,
) -> bool {
    forall|password: Seq<u8>, client: Seq<u8>|
        registered(setup, id, password, record) && #[trigger] login_started(
            password,
            client,
            request,
        ) ==> match client_finished(client, password, response) {
            Ok(Some((finalization, key))) => server_finished(state, finalization) == Ok::<
                Option<Seq<u8>>,
                Seq<char>,
            >(Some(key)),
            _ => false,
        }
}

/// `ClientLogin::finish` depends on its arguments alone: with triple
/// Diffie-Hellman it draws no random number.
#[verifier::external_body]
pub(crate) fn finish_client(state: &[u8], password: &[u8], response: &[u8]) -> (finished: Result<
    Option<(Vec<u8>, Vec<u8>)>,
    String,
>)
    ensures
        match client_finished(state@, password@, response@) {
            Ok(Some((finalization, key))) => finished matches Ok(Some((f, k))) && f@ == finalization
                && k@ == key,
            Ok(None) => finished matches Ok(None),
            Err(text) => finished matches Err(t) && t@ == text,
        },
{
    let state = opaque_ke::ClientLogin::<LanFlowCipherSuite<opaque_ke::TripleDh<opaque_ke::Ristretto255, sha2::Sha512>>>::deserialize(state)
        .map_err(|error| error.to_string())?;
    let response = opaque_ke::CredentialResponse::deserialize(response)
        .map_err(|error| error.to_string())?;
    let params = opaque_ke::ClientLoginFinishParameters::default();
    match state.finish(&mut rand_core::OsRng, password, response, params) {
        Ok(result) => Ok(Some((result.message.serialize().to_vec(), result.session_key.to_vec()))),
        Err(_) => Ok(None),
    }
}

/// `ServerLogin::finish` depends on its arguments alone.
#[verifier::external_body]
pub(crate) fn finish_server(state: &[u8], finalization: &[u8]) -> (finished: Result<
    Option<Vec<u8>>,
    String,
>)
    ensures
        match server_finished(state@, finalization@) {
            Ok(Some(key)) => finished matches Ok(Some(k)) && k@ == key,
            Ok(None) => finished matches Ok(None),
            Err(text) => finished matches Err(t) && t@ == text,
        },
{
    let state = opaque_ke::ServerLogin::<LanFlowCipherSuite<opaque_ke::TripleDh<opaque_ke::Ristretto255, sha2::Sha512>>>::deserialize(state)
        .map_err(|error| error.to_string())?;
    let finalization = opaque_ke::CredentialFinalization::deserialize(finalization)
        .map_err(|error| error.to_string())?;
    match state.finish(finalization, opaque_ke::ServerLoginParameters::default()) {
        Ok(result) => Ok(Some(result.session_key.to_vec())),
        Err(_) => Ok(None),
    }
}

} // verus!
