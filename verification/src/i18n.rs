//! The app's own UI strings (connection status, previews, notifications)
//! in English and Portuguese, with positional `{0}`/`{1}` substitution.
use vstd::prelude::*;
use crate::text::{chars_of, string_of, str_eq, has_at, has_at_of, push_range, push_all, push_decimal, decimal};

verus! {

broadcast use vstd::string::group_string_axioms;

#[derive(Clone, Copy, PartialEq, Eq, Structural)]
pub enum Locale {
    En,
    Pt,
}

/// Every key with its English and Portuguese text.
pub open spec fn catalog() -> Seq<(Seq<char>, Seq<char>, Seq<char>)> {
    seq![
        ("status.connecting"@, "Connecting..."@, "Conectando..."@),
        ("status.connected"@, "Connected"@, "Conectado"@),
        ("status.scanQr"@, "Scan the QR code with WhatsApp on your phone"@, "Escaneie o QR code com o WhatsApp do celular"@),
        ("status.sessionEnded"@, "Session ended. Generating a new QR..."@, "Sessão encerrada. Gerando novo QR..."@),
        ("status.reconnecting"@, "Connection lost. Reconnecting..."@, "Conexão perdida. Reconectando..."@),
        ("status.connectFailed"@, "Failed to connect: {0}"@, "Falha ao conectar: {0}"@),
        ("status.pairingHint"@, "Enter the code on your phone: Linked devices → Link with phone number"@, "Digite o código no celular: Aparelhos conectados → Conectar com número"@),
        ("status.loggingOut"@, "Disconnecting..."@, "Desconectando..."@),
        ("pairing.generating"@, "Generating..."@, "Gerando..."@),
        ("pairing.failed"@, "Failed to generate code"@, "Falha ao gerar código"@),
        ("error.invalidNumber"@, "Invalid phone number"@, "Número de telefone inválido"@),
        ("error.stillConnecting"@, "Still connecting, try again"@, "Ainda conectando, tente novamente"@),
        ("error.notConnected"@, "Not connected"@, "Não conectado"@),
        ("pin.wrong"@, "Wrong PIN"@, "PIN incorreto"@),
        ("pin.wrongCurrent"@, "Current PIN is incorrect"@, "PIN atual incorreto"@),
        ("pin.format"@, "PIN must be 4 to 10 digits"@, "PIN deve ter de 4 a 10 dígitos"@),
        ("pin.saved"@, "PIN saved. Local data is now protected by it."@, "PIN salvo. Os dados locais agora são protegidos por ele."@),
        ("pin.removed"@, "PIN removed. Local data stays encrypted via your Windows account."@, "PIN removido. Os dados locais seguem criptografados pela sua conta Windows."@),
        ("media.unavailable"@, "Media unavailable"@, "Mídia indisponível"@),
        ("media.imageUnavailable"@, "Image unavailable"@, "Imagem indisponível"@),
        ("preview.photo"@, "📷 Photo"@, "📷 Foto"@),
        ("preview.audio"@, "🎵 Audio"@, "🎵 Áudio"@),
        ("preview.document"@, "📄 {0}"@, "📄 {0}"@),
        ("doc.fallbackName"@, "Document"@, "Documento"@),
        ("day.today"@, "Today"@, "Hoje"@),
        ("day.yesterday"@, "Yesterday"@, "Ontem"@),
        ("presence.typing"@, "typing..."@, "digitando..."@),
        ("presence.recording"@, "recording audio..."@, "gravando áudio..."@),
        ("presence.online"@, "online"@, "online"@),
        ("sync.older"@, "Syncing older messages..."@, "Sincronizando mensagens antigas..."@),
        ("notify.newMessages"@, "{0} new messages ({1})"@, "{0} novas mensagens ({1})"@),
        ("notify.fromOne"@, "{0} new messages from {1}"@, "{0} novas mensagens de {1}"@),
        ("notify.appName"@, "Zapive"@, "Zapive"@),
        ("picker.images"@, "Images"@, "Imagens"@),
        ("picker.audio"@, "Audio"@, "Áudio"@),
        ("picker.all"@, "All files"@, "Todos os arquivos"@),
        ("lang.restart"@, "Language saved. Restart Zapive to apply."@, "Idioma salvo. Reinicie o Zapive para aplicar."@),
        ("msg.deleted"@, "This message was deleted"@, "Essa mensagem foi apagada"@),
        ("msg.forwarded"@, "Forwarded"@, "Encaminhada"@),
        ("tray.open"@, "Open Zapive"@, "Abrir Zapive"@),
        ("tray.exit"@, "Quit"@, "Sair"@),
        ("preview.sticker"@, "🩵 Sticker"@, "🩵 Figurinha"@),
        ("preview.video"@, "🎬 Video"@, "🎬 Vídeo"@),
        ("rec.noMic"@, "No microphone found"@, "Nenhum microfone encontrado"@),
        ("info.members"@, "{0} participants"@, "{0} participantes"@),
        ("gif.noResults"@, "No GIFs found"@, "Nenhum GIF encontrado"@),
        ("fav.empty"@, "Star a sticker on your phone to keep it here"@, "Marque uma figurinha com estrela no celular para guardá-la aqui"@),
        ("call.incomingVoice"@, "Incoming voice call"@, "Chamada de voz recebida"@),
        ("call.incomingVideo"@, "Incoming video call"@, "Chamada de vídeo recebida"@),
        ("call.answered"@, "Answered elsewhere"@, "Atendida em outro aparelho"@),
        ("call.declined"@, "Declined"@, "Recusada"@),
        ("call.missed"@, "Missed call"@, "Chamada perdida"@),
        ("call.ended"@, "Call ended"@, "Chamada encerrada"@),
        ("call.ringing"@, "Ringing"@, "Chamando"@),
        ("call.video"@, "Video call"@, "Chamada de vídeo"@),
        ("call.voice"@, "Voice call"@, "Chamada de voz"@),
        ("preview.gif"@, "🎬 GIF"@, "🎬 GIF"@),
        ("preview.reacted"@, "Reacted {0} to: \"{1}\""@, "Reagiu {0} a: \"{1}\""@),
        ("alert.conflictTitle"@, "Session taken over"@, "Sessão assumida em outro lugar"@),
        ("alert.conflictBody"@, "WhatsApp was opened somewhere else with this account. Only one session stays connected at a time."@, "O WhatsApp foi aberto em outro lugar com esta conta. Apenas uma sessão fica conectada por vez."@),
        ("alert.reconnect"@, "Use here"@, "Usar aqui"@),
        ("alert.offlineTitle"@, "Cannot reach WhatsApp"@, "Não foi possível conectar"@),
        ("alert.offlineBody"@, "Zapive has been retrying without success. Check the connection and try again."@, "O Zapive tentou reconectar várias vezes sem sucesso. Verifique a conexão e tente de novo."@),
        ("alert.retry"@, "Try again"@, "Tentar de novo"@),
        ("alert.close"@, "Close"@, "Fechar"@),
        ("reactions.count"@, "{0} reactions"@, "{0} reações"@),
        ("reactions.you"@, "You"@, "Você"@),
        ("forward.title"@, "Forward message to"@, "Encaminhar mensagem para"@),
    ]
}

fn catalog_exec() -> (v: Vec<(&'static str, &'static str, &'static str)>)
    ensures
        v@.map_values(|e: (&'static str, &'static str, &'static str)| (e.0@, e.1@, e.2@)) == catalog(),
{
    let v = vec![
        ("status.connecting", "Connecting...", "Conectando..."),
        ("status.connected", "Connected", "Conectado"),
        ("status.scanQr", "Scan the QR code with WhatsApp on your phone", "Escaneie o QR code com o WhatsApp do celular"),
        ("status.sessionEnded", "Session ended. Generating a new QR...", "Sessão encerrada. Gerando novo QR..."),
        ("status.reconnecting", "Connection lost. Reconnecting...", "Conexão perdida. Reconectando..."),
        ("status.connectFailed", "Failed to connect: {0}", "Falha ao conectar: {0}"),
        ("status.pairingHint", "Enter the code on your phone: Linked devices → Link with phone number", "Digite o código no celular: Aparelhos conectados → Conectar com número"),
        ("status.loggingOut", "Disconnecting...", "Desconectando..."),
        ("pairing.generating", "Generating...", "Gerando..."),
        ("pairing.failed", "Failed to generate code", "Falha ao gerar código"),
        ("error.invalidNumber", "Invalid phone number", "Número de telefone inválido"),
        ("error.stillConnecting", "Still connecting, try again", "Ainda conectando, tente novamente"),
        ("error.notConnected", "Not connected", "Não conectado"),
        ("pin.wrong", "Wrong PIN", "PIN incorreto"),
        ("pin.wrongCurrent", "Current PIN is incorrect", "PIN atual incorreto"),
        ("pin.format", "PIN must be 4 to 10 digits", "PIN deve ter de 4 a 10 dígitos"),
        ("pin.saved", "PIN saved. Local data is now protected by it.", "PIN salvo. Os dados locais agora são protegidos por ele."),
        ("pin.removed", "PIN removed. Local data stays encrypted via your Windows account.", "PIN removido. Os dados locais seguem criptografados pela sua conta Windows."),
        ("media.unavailable", "Media unavailable", "Mídia indisponível"),
        ("media.imageUnavailable", "Image unavailable", "Imagem indisponível"),
        ("preview.photo", "📷 Photo", "📷 Foto"),
        ("preview.audio", "🎵 Audio", "🎵 Áudio"),
        ("preview.document", "📄 {0}", "📄 {0}"),
        ("doc.fallbackName", "Document", "Documento"),
        ("day.today", "Today", "Hoje"),
        ("day.yesterday", "Yesterday", "Ontem"),
        ("presence.typing", "typing...", "digitando..."),
        ("presence.recording", "recording audio...", "gravando áudio..."),
        ("presence.online", "online", "online"),
        ("sync.older", "Syncing older messages...", "Sincronizando mensagens antigas..."),
        ("notify.newMessages", "{0} new messages ({1})", "{0} novas mensagens ({1})"),
        ("notify.fromOne", "{0} new messages from {1}", "{0} novas mensagens de {1}"),
        ("notify.appName", "Zapive", "Zapive"),
        ("picker.images", "Images", "Imagens"),
        ("picker.audio", "Audio", "Áudio"),
        ("picker.all", "All files", "Todos os arquivos"),
        ("lang.restart", "Language saved. Restart Zapive to apply.", "Idioma salvo. Reinicie o Zapive para aplicar."),
        ("msg.deleted", "This message was deleted", "Essa mensagem foi apagada"),
        ("msg.forwarded", "Forwarded", "Encaminhada"),
        ("tray.open", "Open Zapive", "Abrir Zapive"),
        ("tray.exit", "Quit", "Sair"),
        ("preview.sticker", "🩵 Sticker", "🩵 Figurinha"),
        ("preview.video", "🎬 Video", "🎬 Vídeo"),
        ("rec.noMic", "No microphone found", "Nenhum microfone encontrado"),
        ("info.members", "{0} participants", "{0} participantes"),
        ("gif.noResults", "No GIFs found", "Nenhum GIF encontrado"),
        ("fav.empty", "Star a sticker on your phone to keep it here", "Marque uma figurinha com estrela no celular para guardá-la aqui"),
        ("call.incomingVoice", "Incoming voice call", "Chamada de voz recebida"),
        ("call.incomingVideo", "Incoming video call", "Chamada de vídeo recebida"),
        ("call.answered", "Answered elsewhere", "Atendida em outro aparelho"),
        ("call.declined", "Declined", "Recusada"),
        ("call.missed", "Missed call", "Chamada perdida"),
        ("call.ended", "Call ended", "Chamada encerrada"),
        ("call.ringing", "Ringing", "Chamando"),
        ("call.video", "Video call", "Chamada de vídeo"),
        ("call.voice", "Voice call", "Chamada de voz"),
        ("preview.gif", "🎬 GIF", "🎬 GIF"),
        ("preview.reacted", "Reacted {0} to: \"{1}\"", "Reagiu {0} a: \"{1}\""),
        ("alert.conflictTitle", "Session taken over", "Sessão assumida em outro lugar"),
        ("alert.conflictBody", "WhatsApp was opened somewhere else with this account. Only one session stays connected at a time.", "O WhatsApp foi aberto em outro lugar com esta conta. Apenas uma sessão fica conectada por vez."),
        ("alert.reconnect", "Use here", "Usar aqui"),
        ("alert.offlineTitle", "Cannot reach WhatsApp", "Não foi possível conectar"),
        ("alert.offlineBody", "Zapive has been retrying without success. Check the connection and try again.", "O Zapive tentou reconectar várias vezes sem sucesso. Verifique a conexão e tente de novo."),
        ("alert.retry", "Try again", "Tentar de novo"),
        ("alert.close", "Close", "Fechar"),
        ("reactions.count", "{0} reactions", "{0} reações"),
        ("reactions.you", "You", "Você"),
        ("forward.title", "Forward message to", "Encaminhar mensagem para"),
    ];
    assert(v@.map_values(|e: (&'static str, &'static str, &'static str)| (e.0@, e.1@, e.2@)) =~= catalog());
    v
}

/// The English and Portuguese text of the first entry of `cat` for `key`.
pub open spec fn lookup(cat: Seq<(Seq<char>, Seq<char>, Seq<char>)>, key: Seq<char>) -> Option<
    (Seq<char>, Seq<char>),
>
    decreases cat.len(),
{
    if cat.len() == 0 {
        None
    } else if cat[0].0 == key {
        Some((cat[0].1, cat[0].2))
    } else {
        lookup(cat.drop_first(), key)
    }
}

/// The text of `key` in `locale`, empty for an unknown key.
pub open spec fn catalog_text(locale: Locale, key: Seq<char>) -> Seq<char> {
    match lookup(catalog(), key) {
        Some((en, pt)) => if locale == Locale::Pt {
            pt
        } else {
            en
        },
        None => seq![],
    }
}

/// What a key reads as before substitution: its Portuguese text (English
/// when that is empty) or its English text, and the key itself when the
/// catalog has nothing.
pub open spec fn base_text(locale: Locale, key: Seq<char>) -> Seq<char> {
    let raw = if locale == Locale::Pt && catalog_text(Locale::Pt, key).len() != 0 {
        catalog_text(Locale::Pt, key)
    } else {
        catalog_text(Locale::En, key)
    };
    if raw.len() == 0 {
        key
    } else {
        raw
    }
}

/// The first position at or after `from` where `pat` occurs in `s`, or -1.
pub open spec fn first_occurrence(s: Seq<char>, pat: Seq<char>, from: int) -> int
    decreases s.len() + 1 - from,
{
    if from < 0 || from > s.len() {
        -1
    } else if has_at(s, from, pat) {
        from
    } else {
        first_occurrence(s, pat, from + 1)
    }
}

/// `s` with the first occurrence of `pat` replaced by `rep`.
pub open spec fn replace_first(s: Seq<char>, pat: Seq<char>, rep: Seq<char>) -> Seq<char> {
    let i = first_occurrence(s, pat, 0);
    if i < 0 {
        s
    } else {
        s.take(i) + rep + s.skip(i + pat.len())
    }
}

/// The placeholder for argument `i`: "{i}".
pub open spec fn placeholder(i: nat) -> Seq<char> {
    seq!['{'] + decimal(i) + seq!['}']
}

/// Each argument from `i` on replaces the first occurrence of its
/// placeholder, in order.
pub open spec fn fill(s: Seq<char>, args: Seq<Seq<char>>, i: int) -> Seq<char>
    decreases args.len() - i,
{
    if i < 0 || i >= args.len() {
        s
    } else {
        fill(replace_first(s, placeholder(i as nat), args[i]), args, i + 1)
    }
}

/// The translation of `key` in `locale` with `args` substituted.
pub open spec fn translated(locale: Locale, key: Seq<char>, args: Seq<Seq<char>>) -> Seq<char> {
    fill(base_text(locale, key), args, 0)
}

fn catalog_text_exec(locale: Locale, key: &str) -> (r: &'static str)
    ensures
        r@ == catalog_text(locale, key@),
{
    let cat = catalog_exec();
    let ghost cv = cat@.map_values(|e: (&'static str, &'static str, &'static str)| (e.0@, e.1@, e.2@));
    let mut i: usize = 0;
    assert(cv.skip(0) =~= cv);
    while i < cat.len()
        invariant
            i <= cat@.len(),
            cv == cat@.map_values(|e: (&'static str, &'static str, &'static str)| (e.0@, e.1@, e.2@)),
            cv == catalog(),
            lookup(cv, key@) == lookup(cv.skip(i as int), key@),
        decreases cat.len() - i,
    {
        let (k, en, pt) = cat[i];
        assert(cv.skip(i as int)[0] == (k@, en@, pt@));
        assert(cv.skip(i as int).drop_first() =~= cv.skip(i + 1));
        if str_eq(k, key) {
            return match locale {
                Locale::Pt => pt,
                Locale::En => en,
            };
        }
        i = i + 1;
    }
    assert(cv.skip(i as int) =~= Seq::<(Seq<char>, Seq<char>, Seq<char>)>::empty());
    proof {
        reveal_strlit("");
    }
    ""
}

/// Replaces the first occurrence of `pat` in `s` by `rep`.
fn replace_first_exec(s: &Vec<char>, pat: &Vec<char>, rep: &Vec<char>) -> (r: Vec<char>)
    ensures
        r@ == replace_first(s@, pat@, rep@),
{
    let n = s.len();
    let mut i: usize = 0;
    while i < n && !has_at_of(s, i, pat)
        invariant
            n == s@.len(),
            i <= n,
            first_occurrence(s@, pat@, 0) == first_occurrence(s@, pat@, i as int),
        decreases n - i,
    {
        i = i + 1;
    }
    if i == n && !has_at_of(s, n, pat) {
        assert(first_occurrence(s@, pat@, n + 1) == -1);
        let mut out: Vec<char> = Vec::new();
        push_all(&mut out, s);
        assert(out@ =~= s@);
        return out;
    }
    let mut out: Vec<char> = Vec::new();
    push_range(&mut out, s, 0, i);
    push_all(&mut out, rep);
    push_range(&mut out, s, i + pat.len(), n);
    assert(out@ =~= replace_first(s@, pat@, rep@));
    out
}

/// The translation of `key` in `locale`, with `args[i]` put in place of
/// the first "{i}" for each `i` in turn. An unknown key reads as itself;
/// a key Portuguese lacks reads in English.
pub fn ta(locale: Locale, key: &str, args: &[&str]) -> (r: String)
    ensures
        r@ == translated(locale, key@, args@.map_values(|a: &str| a@)),
{
    let raw = match locale {
        Locale::Pt => {
            let s = catalog_text_exec(Locale::Pt, key);
            if s.is_empty() {
                catalog_text_exec(Locale::En, key)
            } else {
                s
            }
        },
        Locale::En => catalog_text_exec(Locale::En, key),
    };
    let mut out = if raw.is_empty() {
        chars_of(key)
    } else {
        chars_of(raw)
    };
    let ghost av = args@.map_values(|a: &str| a@);
    let mut i: usize = 0;
    while i < args.len()
        invariant
            i <= args@.len(),
            av == args@.map_values(|a: &str| a@),
            fill(out@, av, i as int) == translated(locale, key@, av),
        decreases args.len() - i,
    {
        let mut ph: Vec<char> = Vec::new();
        ph.push('{');
        push_decimal(&mut ph, i as u64);
        ph.push('}');
        assert(ph@ =~= placeholder(i as nat));
        let rep = chars_of(args[i]);
        out = replace_first_exec(&out, &ph, &rep);
        i = i + 1;
    }
    string_of(&out)
}

/// The translation of `key` in `locale`, no arguments.
pub fn t(locale: Locale, key: &str) -> (r: String)
    ensures
        r@ == translated(locale, key@, seq![]),
{
    let none: [&str; 0] = [];
    let r = ta(locale, key, &none);
    assert(none@.map_values(|a: &str| a@) =~= Seq::<Seq<char>>::empty());
    r
}

} // verus!
