//! Passwords: registering them, logging in with them, proving a session, and
//! keeping them on this machine.

use vstd::prelude::*;
use vstd::utf8;

use crate::error::{ErrorView, LanFlowError};
use crate::fields;
use crate::outside::crypto;
use crate::outside::hash;
use crate::outside::machine;
use crate::outside::opaque;
use crate::outside::strings::string_from_utf8;
use crate::text;

verus! {

// ---------------------------------------------------------------------------
// The password protocol
// ---------------------------------------------------------------------------

/// The keys of a server.
pub struct LanFlowServerSetup {
    bytes: Vec<u8>,
}

impl LanFlowServerSetup {
    /// The keys as bytes.
    pub closed spec fn keys(&self) -> Seq<u8> {
        self.bytes@
    }
}

/// Draws the keys of a new server.
pub fn new_server_setup() -> (setup: LanFlowServerSetup)
    ensures
        opaque::setup_check(setup.keys()) is Ok,
{
    LanFlowServerSetup { bytes: opaque::new_setup() }
}

/// The keys of a server as bytes.
pub fn serialize_server_setup(setup: &LanFlowServerSetup) -> (bytes: Vec<u8>)
    ensures
        bytes@ == setup.keys(),
{
    fields::copy_bytes(setup.bytes.as_slice())
}

/// Reads the keys of a server.
pub fn deserialize_server_setup(bytes: &[u8]) -> (setup: Result<LanFlowServerSetup, LanFlowError>)
    ensures
        match opaque::setup_check(bytes@) {
            Ok(_) => setup matches Ok(s) && s.keys() == bytes@,
            Err(text) => setup matches Err(e) && e@ == ErrorView::Auth(text),
        },
{
    match opaque::check_setup(bytes) {
        Ok(_) => Ok(LanFlowServerSetup { bytes: fields::copy_bytes(bytes) }),
        Err(text) => Err(LanFlowError::Auth(text)),
    }
}

/// The model of a record, or of the error that there is none.
pub open spec fn record_result(record: Result<Vec<u8>, LanFlowError>) -> Result<
    Seq<u8>,
    ErrorView,
> {
    match record {
        Ok(bytes) => Ok(bytes@),
        Err(error) => Err(error@),
    }
}

/// Whether registering a password can give a record or an error: that of the
/// step of the password protocol that failed.
pub open spec fn can_register(
    keys: Seq<u8>,
    share_id: Seq<char>,
    password: Seq<char>,
    record: Result<Seq<u8>, ErrorView>,
) -> bool {
    let id = utf8::encode_utf8(share_id);
    let secret = utf8::encode_utf8(password);
    match record {
        Ok(bytes) => opaque::registered(keys, id, secret, bytes),
        Err(error) => error matches ErrorView::Auth(text) && opaque::registration_gives(
            keys,
            id,
            secret,
            Err(text),
        ),
    }
}

/// The record that a share keeps of a password.
pub fn register_password(setup: &LanFlowServerSetup, share_id: &str, password: &str) -> (record:
    Result<Vec<u8>, LanFlowError>)
    ensures
        can_register(setup.keys(), share_id@, password@, record_result(record)),
        utf8::encode_utf8(password@).len() > 0xffff ==> record is Err,
{
    let ghost keys = setup.keys();
    let ghost id = utf8::encode_utf8(share_id@);
    let ghost secret = utf8::encode_utf8(password@);
    let (state, request) = match opaque::start_registration(password.as_bytes()) {
        Ok(started) => started,
        Err(text) => {
            return Err(LanFlowError::Auth(text));
        },
    };
    let response = match opaque::answer_registration(
        setup.bytes.as_slice(),
        request.as_slice(),
        share_id.as_bytes(),
    ) {
        Ok(response) => response,
        Err(text) => {
            proof {
                let result = Err::<Seq<u8>, Seq<char>>(text@);
                assert(opaque::registration_ends(
                    keys,
                    id,
                    secret,
                    state@,
                    request@,
                    result,
                    result,
                ));
            }
            return Err(LanFlowError::Auth(text));
        },
    };
    let upload = match opaque::finish_registration(
        state.as_slice(),
        password.as_bytes(),
        response.as_slice(),
    ) {
        Ok(upload) => upload,
        Err(text) => {
            proof {
                let result = Err::<Seq<u8>, Seq<char>>(text@);
                assert(opaque::registration_ends(
                    keys,
                    id,
                    secret,
                    state@,
                    request@,
                    result,
                    result,
                ));
            }
            return Err(LanFlowError::Auth(text));
        },
    };
    let kept = opaque::keep_registration(upload.as_slice());
    assert(opaque::registration_ends(
        keys,
        id,
        secret,
        state@,
        request@,
        Ok::<Seq<u8>, Seq<char>>(upload@),
        opaque::outcome_of(kept),
    ));
    match kept {
        Ok(record) => Ok(record),
        Err(text) => Err(LanFlowError::Auth(text)),
    }
}

/// A login that a server has answered.
pub struct ServerPendingLogin {
    state: Vec<u8>,
}

impl ServerPendingLogin {
    pub closed spec fn state(&self) -> Seq<u8> {
        self.state@
    }

    /// The session key, once the client has closed the login.
    pub fn finish(self, finalization: &[u8]) -> (key: Result<Vec<u8>, LanFlowError>)
        ensures
            match opaque::server_finished(self.state(), finalization@) {
                Ok(Some(expected)) => key matches Ok(k) && k@ == expected,
                Ok(None) => key matches Err(e) && e@ == ErrorView::Auth("密码不正确"@),
                Err(text) => key matches Err(e) && e@ == ErrorView::Auth(text),
            },
    {
        match opaque::finish_server(self.state.as_slice(), finalization) {
            Ok(Some(key)) => Ok(key),
            Ok(None) => Err(LanFlowError::Auth("密码不正确".to_owned())),
            Err(text) => Err(LanFlowError::Auth(text)),
        }
    }
}

impl Clone for ServerPendingLogin {
    fn clone(&self) -> (copy: ServerPendingLogin)
        ensures
            copy.state() == self.state(),
    {
        ServerPendingLogin { state: fields::copy_bytes(self.state.as_slice()) }
    }
}

/// Answers the login request of a client. A client with the password that was
/// registered accepts the answer, and both ends have the same session key.
pub fn begin_server_login(
    setup: &LanFlowServerSetup,
    share_id: &str,
    password_record: &[u8],
    credential_request: &[u8],
) -> (answer: Result<(Vec<u8>, ServerPendingLogin), LanFlowError>)
    ensures
        match opaque::login_answers(
            setup.keys(),
            password_record@,
            credential_request@,
            utf8::encode_utf8(share_id@),
        ) {
            Ok(answers) => answer matches Ok((response, login)) && answers.contains(
                (response@, login.state()),
            ),
            Err(text) => answer matches Err(e) && e@ == ErrorView::Auth(text),
        },
        answer matches Ok((response, login)) ==> opaque::keys_agree(
            setup.keys(),
            password_record@,
            credential_request@,
            utf8::encode_utf8(share_id@),
            response@,
            login.state(),
        ),
{
    match opaque::answer_login(
        setup.bytes.as_slice(),
        password_record,
        credential_request,
        share_id.as_bytes(),
    ) {
        Ok((response, state)) => Ok((response, ServerPendingLogin { state })),
        Err(text) => Err(LanFlowError::Auth(text)),
    }
}

/// A login that a client has begun.
pub struct ClientPendingLogin {
    state: Vec<u8>,
    password: String,
}

impl ClientPendingLogin {
    pub closed spec fn state(&self) -> Seq<u8> {
        self.state@
    }

    pub closed spec fn password(&self) -> Seq<char> {
        self.password@
    }

    /// The message that closes the login, and the session key.
    pub fn finish(self, response: &[u8]) -> (result: Result<(Vec<u8>, Vec<u8>), LanFlowError>)
        ensures
            match opaque::client_finished(
                self.state(),
                utf8::encode_utf8(self.password()),
                response@,
            ) {
                Ok(Some((finalization, key))) => result matches Ok((f, k)) && f@ == finalization
                    && k@ == key,
                Ok(None) => result matches Err(e) && e@ == ErrorView::Auth("密码不正确"@),
                Err(text) => result matches Err(e) && e@ == ErrorView::Auth(text),
            },
    {
        let finished = opaque::finish_client(
            self.state.as_slice(),
            self.password.as_str().as_bytes(),
            response,
        );
        machine::wipe(self.password);
        match finished {
            Ok(Some((finalization, key))) => Ok((finalization, key)),
            Ok(None) => Err(LanFlowError::Auth("密码不正确".to_owned())),
            Err(text) => Err(LanFlowError::Auth(text)),
        }
    }
}

/// Begins a login with a password: a request for the server, and what is
/// needed to close the login.
pub fn begin_client_login(password: String) -> (begun: Result<
    (Vec<u8>, ClientPendingLogin),
    LanFlowError,
>)
    ensures
        begun is Ok,
        begun matches Ok((request, login)) ==> login.password() == password@
            && opaque::login_started(utf8::encode_utf8(password@), login.state(), request@),
{
    match opaque::start_login(password.as_str().as_bytes()) {
        Ok((state, request)) => Ok((request, ClientPendingLogin { state, password })),
        Err(text) => {
            machine::wipe(password);
            Err(LanFlowError::Auth(text))
        },
    }
}

/// A login with the registered password ends well at both ends, and with the
/// same session key.
pub proof fn law_session_keys_agree(
    setup: Seq<u8>,
    id: Seq<u8>,
    password: Seq<u8>,
    record: Seq<u8>,
    client: Seq<u8>,
    request: Seq<u8>,
    response: Seq<u8>,
    server: Seq<u8>,
)
    requires
        opaque::registered(setup, id, password, record),
        opaque::login_started(password, client, request),
        opaque::keys_agree(setup, record, request, id, response, server),
    ensures
        match opaque::client_finished(client, password, response) {
            Ok(Some((finalization, key))) => opaque::server_finished(server, finalization) == Ok::<
                Option<Seq<u8>>,
                Seq<char>,
            >(Some(key)),
            _ => false,
        },
{
}

// ---------------------------------------------------------------------------
// Proofs of a session
// ---------------------------------------------------------------------------

/// Byte strings one after the other.
pub open spec fn joined_parts(parts: Seq<Seq<u8>>) -> Seq<u8>
    decreases parts.len(),
{
    if parts.len() == 0 {
        Seq::empty()
    } else {
        joined_parts(parts.drop_last()) + parts.last()
    }
}

pub open spec fn part_views(parts: Seq<&[u8]>) -> Seq<Seq<u8>> {
    parts.map_values(|part: &[u8]| part@)
}

/// The proof that the holder of a key gives for some byte strings.
pub open spec fn mac_of(key: Seq<u8>, parts: Seq<Seq<u8>>) -> Seq<u8> {
    crypto::hmac_tag(key, joined_parts(parts))
}

/// The proof for some byte strings is the tag of these one behind the other.
pub proof fn law_proofs_are_tags(key: Seq<u8>, a: Seq<u8>, b: Seq<u8>, c: Seq<u8>)
    ensures
        mac_of(key, seq![a, b]) == crypto::hmac_tag(key, a + b),
        mac_of(key, seq![a, b, c]) == crypto::hmac_tag(key, a + b + c),
{
    let none = Seq::<Seq<u8>>::empty();
    assert(seq![a].drop_last() =~= none);
    assert(joined_parts(none) =~= Seq::empty());
    assert(joined_parts(seq![a]) =~= a);
    assert(seq![a, b].drop_last() =~= seq![a]);
    assert(joined_parts(seq![a, b]) =~= a + b);
    assert(seq![a, b, c].drop_last() =~= seq![a, b]);
    assert(joined_parts(seq![a, b, c]) =~= a + b + c);
}

fn join_bytes(parts: &[&[u8]]) -> (joined: Vec<u8>)
    ensures
        joined@ == joined_parts(part_views(parts@)),
{
    let ghost all = part_views(parts@);
    let mut joined: Vec<u8> = Vec::new();
    let mut i: usize = 0;
    assert(joined@ =~= joined_parts(all.take(0)));
    while i < parts.len()
        invariant
            i <= parts@.len(),
            all == part_views(parts@),
            joined@ == joined_parts(all.take(i as int)),
        decreases parts@.len() - i,
    {
        joined.extend_from_slice(parts[i]);
        proof {
            assert(all.take(i + 1).drop_last() =~= all.take(i as int));
            assert(all.take(i + 1).last() == parts@[i as int]@);
        }
        i += 1;
    }
    assert(all.take(i as int) =~= all);
    joined
}

/// The proof for some byte strings under a key.
pub fn mac(key: &[u8], parts: &[&[u8]]) -> (tag: Result<Vec<u8>, LanFlowError>)
    ensures
        tag matches Ok(t) && t@ == mac_of(key@, part_views(parts@)) && t@.len() == 32,
{
    let message = join_bytes(parts);
    Ok(crypto::hmac_sha256(key, message.as_slice()))
}

/// Checks a proof.
pub fn verify_mac(key: &[u8], parts: &[&[u8]], proof: &[u8]) -> (checked: Result<(), LanFlowError>)
    ensures
        proof@ == mac_of(key@, part_views(parts@)) ==> checked is Ok,
        proof@ != mac_of(key@, part_views(parts@)) ==> (checked matches Err(e) && e@
            == ErrorView::Auth("消息认证码无效"@)),
{
    let message = join_bytes(parts);
    if crypto::verify_hmac_sha256(key, message.as_slice(), proof) {
        Ok(())
    } else {
        Err(LanFlowError::Auth("消息认证码无效".to_owned()))
    }
}

// ---------------------------------------------------------------------------
// Passwords kept on this machine
// ---------------------------------------------------------------------------

/// The key under which passwords are kept on a machine.
pub open spec fn local_key(machine: Seq<char>, salt: Seq<u8>) -> Seq<u8> {
    hash::derived_key(
        "LanFlow local credential obfuscation v1"@,
        utf8::encode_utf8(machine) + salt,
    )
}

/// Passwords are kept under one key on different machines or in different
/// installations only if the key derivation gives one key for two byte strings.
pub proof fn law_keys_belong_to_a_machine(
    machine: Seq<char>,
    other: Seq<char>,
    salt: Seq<u8>,
    renewed: Seq<u8>,
)
    ensures
        local_key(machine, salt) == local_key(machine, renewed) ==> salt == renewed || exists|
            context: Seq<char>,
            a: Seq<u8>,
            b: Seq<u8>,
        |
            a != b && #[trigger] hash::derived_key(context, a) == #[trigger] hash::derived_key(
                context,
                b,
            ),
        local_key(machine, salt) == local_key(other, salt) ==> machine == other || exists|
            context: Seq<char>,
            a: Seq<u8>,
            b: Seq<u8>,
        |
            a != b && #[trigger] hash::derived_key(context, a) == #[trigger] hash::derived_key(
                context,
                b,
            ),
{
    let m = utf8::encode_utf8(machine);
    let o = utf8::encode_utf8(other);
    if local_key(machine, salt) == local_key(machine, renewed) {
        assert((m + salt).skip(m.len() as int) =~= salt);
        assert((m + renewed).skip(m.len() as int) =~= renewed);
    }
    if local_key(machine, salt) == local_key(other, salt) && m + salt == o + salt {
        assert((m + salt).len() == (o + salt).len());
        assert((m + salt).take(m.len() as int) =~= m);
        assert((o + salt).take(o.len() as int) =~= o);
        text::lemma_utf8_injective(machine, other);
    }
}

/// The name that is used for a machine whose identity cannot be found out.
pub open spec fn machine_name(id: Option<Seq<char>>) -> Seq<char> {
    match id {
        Some(name) => name,
        None => "lanflow-unknown-machine"@,
    }
}

/// The key for a machine with the given identity.
pub fn local_key_for(machine: Option<String>, install_salt: &[u8]) -> (key: [u8; 32])
    ensures
        key@ == local_key(machine_name(text::optional(machine)), install_salt@),
{
    let name = match machine {
        Some(name) => name,
        None => "lanflow-unknown-machine".to_owned(),
    };
    let mut material = fields::copy_bytes(name.as_str().as_bytes());
    material.extend_from_slice(install_salt);
    assert(material@ =~= utf8::encode_utf8(name@) + install_salt@);
    hash::derive_key("LanFlow local credential obfuscation v1", material.as_slice())
}

/// The key for this machine.
pub fn derive_local_key(install_salt: &[u8]) -> (key: [u8; 32])
    ensures
        exists|machine: Option<Seq<char>>|
            key@ == #[trigger] local_key(machine_name(machine), install_salt@),
{
    let id = machine::machine_id();
    let ghost name = text::optional(id);
    let key = local_key_for(id, install_salt);
    assert(key@ == local_key(machine_name(name), install_salt@));
    key
}

/// What a kept password is found to be.
pub open spec fn revealed(key: Seq<u8>, nonce: Seq<u8>, cipher: Seq<u8>) -> Result<
    Seq<char>,
    ErrorView,
> {
    if nonce.len() != 24 {
        Err(ErrorView::Auth("本地凭据 nonce 无效"@))
    } else {
        match crypto::opened(key, nonce, cipher) {
            None => Err(ErrorView::Auth("本地凭据已失效"@)),
            Some(plain) => if utf8::valid_utf8(plain) {
                Ok(utf8::decode_utf8(plain))
            } else {
                Err(ErrorView::Auth("本地凭据编码无效"@))
            },
        }
    }
}

/// A kept password is what its sealed text opens to; one that does not open
/// under the key of this machine, or whose nonce has another length, is refused.
pub proof fn law_kept_passwords_are_revealed(
    key: Seq<u8>,
    nonce: Seq<u8>,
    cipher: Seq<u8>,
    password: Seq<char>,
)
    ensures
        nonce.len() == 24 && crypto::opened(key, nonce, cipher) == Some(
            utf8::encode_utf8(password),
        ) ==> revealed(key, nonce, cipher) == Ok::<Seq<char>, ErrorView>(password),
        revealed(key, nonce, cipher) == Ok::<Seq<char>, ErrorView>(password) ==> nonce.len() == 24
            && crypto::opened(key, nonce, cipher) is Some,
        revealed(key, nonce, cipher) matches Err(error) ==> error is Auth,
{
    utf8::encode_utf8_valid_utf8(password);
    utf8::encode_utf8_decode_utf8(password);
}

/// Seals a password under a key with a given nonce.
pub fn obscure_password_with(key: &[u8; 32], nonce: Vec<u8>, password: &str) -> (sealed: Result<
    (Vec<u8>, Vec<u8>),
    LanFlowError,
>)
    requires
        nonce@.len() == 24,
    ensures
        match crypto::sealed(key@, nonce@, utf8::encode_utf8(password@)) {
            Some(cipher) => sealed matches Ok((n, c)) && n@ == nonce@ && c@ == cipher,
            None => sealed matches Err(e) && e@ == ErrorView::Internal("本地凭据混淆失败"@),
        },
        utf8::encode_utf8(password@).len() < 0x3f_ffff_ffc0 ==> sealed is Ok,
        sealed matches Ok((n, c)) ==> revealed(key@, n@, c@) == Ok::<Seq<char>, ErrorView>(
            password@,
        ),
{
    proof {
        utf8::encode_utf8_valid_utf8(password@);
        utf8::encode_utf8_decode_utf8(password@);
    }
    match crypto::seal(key, nonce.as_slice(), password.as_bytes()) {
        Some(cipher) => Ok((nonce, cipher)),
        None => Err(LanFlowError::Internal("本地凭据混淆失败".to_owned())),
    }
}

/// Seals a password under a key; the results are the nonce, which is drawn,
/// and the sealed text. What was sealed is revealed again.
pub fn obscure_password(key: &[u8; 32], password: &str) -> (sealed: Result<
    (Vec<u8>, Vec<u8>),
    LanFlowError,
>)
    ensures
        sealed matches Ok((nonce, cipher)) ==> nonce@.len() == 24 && crypto::sealed(
            key@,
            nonce@,
            utf8::encode_utf8(password@),
        ) == Some(cipher@) && revealed(key@, nonce@, cipher@) == Ok::<Seq<char>, ErrorView>(
            password@,
        ),
        sealed matches Err(e) ==> e@ == ErrorView::Internal("本地凭据混淆失败"@),
        utf8::encode_utf8(password@).len() < 0x3f_ffff_ffc0 ==> sealed is Ok,
{
    let nonce = machine::random_bytes(24);
    obscure_password_with(key, nonce, password)
}

/// The password in a sealed text.
pub fn reveal_password(key: &[u8; 32], nonce: &[u8], ciphertext: &[u8]) -> (password: Result<
    String,
    LanFlowError,
>)
    ensures
        match revealed(key@, nonce@, ciphertext@) {
            Ok(expected) => password matches Ok(p) && p@ == expected,
            Err(error) => password matches Err(e) && e@ == error,
        },
{
    if nonce.len() != 24 {
        return Err(LanFlowError::Auth("本地凭据 nonce 无效".to_owned()));
    }
    match crypto::open(key, nonce, ciphertext) {
        Some(plain) => match string_from_utf8(plain) {
            Some(password) => Ok(password),
            None => Err(LanFlowError::Auth("本地凭据编码无效".to_owned())),
        },
        None => Err(LanFlowError::Auth("本地凭据已失效".to_owned())),
    }
}

} // verus!
