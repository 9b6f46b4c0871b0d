//! Cases and queries to try a search with.

use vstd::prelude::*;
use crate::support::cases;
use crate::support::cases::{Account, Case, case};
use crate::support::recall::Query;
use crate::text;
use crate::text::{joined3, push_decimal};

verus! {

/// The cases to try a search with.
pub open spec fn sample_cases() -> Seq<Account> {
    seq![
        cases::case_of(
            1001u64,
            "en"@,
            "calendar"@,
            "Calendar stops updating"@,
            "Events added after a password change do not appear on the phone."@,
            "Reconnect the calendar integration to replace the expired OAuth token."@,
        ),
        cases::case_of(
            1002u64,
            "en"@,
            "billing"@,
            "Duplicate renewal debit"@,
            "The monthly subscription was charged two times on the same day."@,
            "Void the duplicate payment and repair the retry idempotency key."@,
        ),
        cases::case_of(
            1003u64,
            "en"@,
            "identity"@,
            "Password reset loop"@,
            "The recovery email opens sign-in instead of allowing a new password."@,
            "Clear the stale login challenge before issuing another recovery link."@,
        ),
        cases::case_of(
            1004u64,
            "en"@,
            "exports"@,
            "Old rows in CSV"@,
            "A newly downloaded report still includes records removed yesterday."@,
            "Invalidate the cached export after each visibility change."@,
        ),
        cases::case_of(
            1005u64,
            "en"@,
            "notifications"@,
            "Alerts arrive late"@,
            "Push notifications are delayed until the mobile application is opened."@,
            "Renew the device registration after upgrading the application."@,
        ),
        cases::case_of(
            1006u64,
            "en"@,
            "mobile"@,
            "Crash while attaching photo"@,
            "The Android application closes when a large image is selected."@,
            "Resize the image before decoding it into memory."@,
        ),
        cases::case_of(
            2001u64,
            "es"@,
            "calendar"@,
            "El calendario no se actualiza"@,
            "Las citas nuevas no aparecen después de cambiar la contraseña."@,
            "Vuelva a conectar el calendario para renovar el token caducado."@,
        ),
        cases::case_of(
            2002u64,
            "es"@,
            "billing"@,
            "Cargo de renovación duplicado"@,
            "La suscripción mensual se cobró dos veces el mismo día."@,
            "Anule el segundo pago y repare la clave de idempotencia."@,
        ),
        cases::case_of(
            2003u64,
            "es"@,
            "identity"@,
            "Bucle al restablecer la contraseña"@,
            "El correo de recuperación abre el inicio de sesión y no permite elegir una contraseña."@,
            "Borre el desafío de acceso anterior antes de enviar otro enlace."@,
        ),
        cases::case_of(
            2004u64,
            "es"@,
            "exports"@,
            "Filas antiguas en CSV"@,
            "El informe descargado todavía incluye registros eliminados ayer."@,
            "Invalide la exportación guardada después de cada cambio de visibilidad."@,
        ),
        cases::case_of(
            2005u64,
            "es"@,
            "notifications"@,
            "Avisos retrasados"@,
            "Las notificaciones llegan solamente al abrir la aplicación móvil."@,
            "Renueve el registro del dispositivo después de actualizar la aplicación."@,
        ),
        cases::case_of(
            2006u64,
            "es"@,
            "mobile"@,
            "Fallo al adjuntar una foto"@,
            "La aplicación Android se cierra al elegir una imagen grande."@,
            "Reduzca la imagen antes de cargarla en memoria."@,
        ),
    ]
}

/// The cases to try a search with.
pub fn fixture_cases() -> (list: Vec<Case>)
    ensures
        cases::accounts(list@) == sample_cases(),
{
    let mut list: Vec<Case> = Vec::new();
    list.push(
        case(
            1001,
            "en",
            "calendar",
            "Calendar stops updating",
            "Events added after a password change do not appear on the phone.",
            "Reconnect the calendar integration to replace the expired OAuth token.",
        ),
    );
    list.push(
        case(
            1002,
            "en",
            "billing",
            "Duplicate renewal debit",
            "The monthly subscription was charged two times on the same day.",
            "Void the duplicate payment and repair the retry idempotency key.",
        ),
    );
    list.push(
        case(
            1003,
            "en",
            "identity",
            "Password reset loop",
            "The recovery email opens sign-in instead of allowing a new password.",
            "Clear the stale login challenge before issuing another recovery link.",
        ),
    );
    list.push(
        case(
            1004,
            "en",
            "exports",
            "Old rows in CSV",
            "A newly downloaded report still includes records removed yesterday.",
            "Invalidate the cached export after each visibility change.",
        ),
    );
    list.push(
        case(
            1005,
            "en",
            "notifications",
            "Alerts arrive late",
            "Push notifications are delayed until the mobile application is opened.",
            "Renew the device registration after upgrading the application.",
        ),
    );
    list.push(
        case(
            1006,
            "en",
            "mobile",
            "Crash while attaching photo",
            "The Android application closes when a large image is selected.",
            "Resize the image before decoding it into memory.",
        ),
    );
    list.push(
        case(
            2001,
            "es",
            "calendar",
            "El calendario no se actualiza",
            "Las citas nuevas no aparecen después de cambiar la contraseña.",
            "Vuelva a conectar el calendario para renovar el token caducado.",
        ),
    );
    list.push(
        case(
            2002,
            "es",
            "billing",
            "Cargo de renovación duplicado",
            "La suscripción mensual se cobró dos veces el mismo día.",
            "Anule el segundo pago y repare la clave de idempotencia.",
        ),
    );
    list.push(
        case(
            2003,
            "es",
            "identity",
            "Bucle al restablecer la contraseña",
            "El correo de recuperación abre el inicio de sesión y no permite elegir una contraseña.",
            "Borre el desafío de acceso anterior antes de enviar otro enlace.",
        ),
    );
    list.push(
        case(
            2004,
            "es",
            "exports",
            "Filas antiguas en CSV",
            "El informe descargado todavía incluye registros eliminados ayer.",
            "Invalide la exportación guardada después de cada cambio de visibilidad.",
        ),
    );
    list.push(
        case(
            2005,
            "es",
            "notifications",
            "Avisos retrasados",
            "Las notificaciones llegan solamente al abrir la aplicación móvil.",
            "Renueve el registro del dispositivo después de actualizar la aplicación.",
        ),
    );
    list.push(
        case(
            2006,
            "es",
            "mobile",
            "Fallo al adjuntar una foto",
            "La aplicación Android se cierra al elegir una imagen grande.",
            "Reduzca la imagen antes de cargarla en memoria.",
        ),
    );
    assert(cases::accounts(list@) =~= sample_cases());
    list
}

/// A query as plain values.
pub struct Question {
    pub language: Seq<char>,
    pub text: Seq<char>,
    pub useful_case: u64,
}

pub open spec fn question(query: Query) -> Question {
    Question {
        language: query.language@,
        text: query.text@,
        useful_case: query.useful_case,
    }
}

/// The queries to try a search with, and the case that each should find.
pub open spec fn sample_queries() -> Seq<Question> {
    seq![
        Question {
            language: "en"@,
            text: "appointments missing after credentials rotated"@,
            useful_case: 1001u64,
        },
        Question {
            language: "en"@,
            text: "two payments for one plan"@,
            useful_case: 1002u64,
        },
        Question {
            language: "en"@,
            text: "forgotten passcode link returns to login"@,
            useful_case: 1003u64,
        },
        Question {
            language: "es"@,
            text: "agenda vacía después de cambiar la clave"@,
            useful_case: 2001u64,
        },
        Question {
            language: "es"@,
            text: "me facturaron dos veces el plan"@,
            useful_case: 2002u64,
        },
        Question {
            language: "es"@,
            text: "correo para recuperar acceso vuelve al inicio"@,
            useful_case: 2003u64,
        },
    ]
}

/// The queries to try a search with, and the case that each should find.
pub fn fixture_queries() -> (queries: Vec<Query>)
    ensures
        queries@.map_values(|query: Query| question(query)) == sample_queries(),
{
    let mut queries: Vec<Query> = Vec::new();
    queries.push(
        Query {
            language: "en",
            text: "appointments missing after credentials rotated",
            useful_case: 1001,
        },
    );
    queries.push(
        Query {
            language: "en",
            text: "two payments for one plan",
            useful_case: 1002,
        },
    );
    queries.push(
        Query {
            language: "en",
            text: "forgotten passcode link returns to login",
            useful_case: 1003,
        },
    );
    queries.push(
        Query {
            language: "es",
            text: "agenda vacía después de cambiar la clave",
            useful_case: 2001,
        },
    );
    queries.push(
        Query {
            language: "es",
            text: "me facturaron dos veces el plan",
            useful_case: 2002,
        },
    );
    queries.push(
        Query {
            language: "es",
            text: "correo para recuperar acceso vuelve al inicio",
            useful_case: 2003,
        },
    );
    assert(queries@.map_values(|query: Query| question(query)) =~= sample_queries());
    queries
}

pub open spec fn area_of(case_id: nat) -> Seq<char> {
    if case_id % 6 == 0 {
        "calendar"@
    } else if case_id % 6 == 1 {
        "billing"@
    } else if case_id % 6 == 2 {
        "identity"@
    } else if case_id % 6 == 3 {
        "exports"@
    } else if case_id % 6 == 4 {
        "notifications"@
    } else {
        "mobile"@
    }
}

pub open spec fn issue_of(case_id: nat) -> Seq<char> {
    if case_id % 8 == 0 {
        "authorization expired after a credential rotation"@
    } else if case_id % 8 == 1 {
        "duplicate debit caused by a retried renewal"@
    } else if case_id % 8 == 2 {
        "recovery link returns to the sign in page"@
    } else if case_id % 8 == 3 {
        "report contains rows removed the previous day"@
    } else if case_id % 8 == 4 {
        "notification is delayed until the application opens"@
    } else if case_id % 8 == 5 {
        "large photograph causes the application to close"@
    } else if case_id % 8 == 6 {
        "workspace setting does not propagate to the device"@
    } else {
        "scheduled import remains in a pending state"@
    }
}

fn area_at(case_id: u64) -> (found: &'static str)
    ensures
        found@ == area_of(case_id as nat),
{
    match case_id % 6 {
        0 => "calendar",
        1 => "billing",
        2 => "identity",
        3 => "exports",
        4 => "notifications",
        _ => "mobile",
    }
}

fn issue_at(case_id: u64) -> (found: &'static str)
    ensures
        found@ == issue_of(case_id as nat),
{
    match case_id % 8 {
        0 => "authorization expired after a credential rotation",
        1 => "duplicate debit caused by a retried renewal",
        2 => "recovery link returns to the sign in page",
        3 => "report contains rows removed the previous day",
        4 => "notification is delayed until the application opens",
        5 => "large photograph causes the application to close",
        6 => "workspace setting does not propagate to the device",
        _ => "scheduled import remains in a pending state",
    }
}

pub open spec fn language_of(case_id: nat) -> Seq<char> {
    if case_id % 2 == 0 {
        "es"@
    } else {
        "en"@
    }
}

/// A case made up from its number.
pub open spec fn made_up(case_id: u64) -> Account {
    let number = text::decimal(case_id as nat);
    cases::case_of(
        case_id,
        language_of(case_id as nat),
        area_of(case_id as nat),
        "Synthetic scale case "@ + number,
        "Approved fixture record "@ + number + ": "@ + issue_of(case_id as nat) + "."@,
        "Apply the documented "@ + area_of(case_id as nat) + " recovery procedure for fixture "@
            + number + "."@,
    )
}

/// A case made up from its number.
pub fn synthetic_case(case_id: u64) -> (made: Case)
    ensures
        made@ == made_up(case_id),
{
    let language: &'static str = if case_id % 2 == 0 {
        "es"
    } else {
        "en"
    };
    let area = area_at(case_id);
    let issue = issue_at(case_id);
    let mut subject = "Synthetic scale case ".to_owned();
    push_decimal(&mut subject, case_id);
    let mut body = "Approved fixture record ".to_owned();
    push_decimal(&mut body, case_id);
    body.append(": ");
    body.append(issue);
    body.append(".");
    let mut resolution = joined3(
        "Apply the documented ",
        area,
        " recovery procedure for fixture ",
    );
    push_decimal(&mut resolution, case_id);
    resolution.append(".");
    case(
        case_id,
        language,
        area,
        subject.as_str(),
        body.as_str(),
        resolution.as_str(),
    )
}

/// One step of a refresh.
#[derive(Clone, Debug, PartialEq, Eq)]
pub enum Update {
    Remove { case_id: u64 },
    Upsert { row: Case },
}

/// A step as plain values.
pub enum Step {
    Remove { case_id: u64 },
    Upsert { row: Account },
}

impl View for Update {
    type V = Step;

    open spec fn view(&self) -> Step {
        match self {
            Update::Remove { case_id } => Step::Remove { case_id: *case_id },
            Update::Upsert { row } => Step::Upsert { row: row@ },
        }
    }
}

/// The steps of a refresh take turns: a case goes, a case is edited, and a case comes.
pub open spec fn step_at(case_count: nat, i: nat) -> Step {
    if i % 3 == 0 {
        Step::Remove { case_id: i as u64 }
    } else if i % 3 == 1 {
        let row = made_up(i as u64);
        Step::Upsert {
            row: Account {
                body: row.body + " Edited in the representative refresh."@,
                modified_at: "2026-08-10T00:00:00Z"@,
                ..row
            },
        }
    } else {
        Step::Upsert { row: made_up((case_count + i) as u64) }
    }
}

/// The `i`th step of a refresh of `case_count` cases.
pub fn scale_update(case_count: u64, i: u64) -> (update: Update)
    requires
        case_count + i <= u64::MAX,
    ensures
        update@ == step_at(case_count as nat, i as nat),
{
    if i % 3 == 0 {
        Update::Remove { case_id: i }
    } else if i % 3 == 1 {
        let mut row = synthetic_case(i);
        row.body.append(" Edited in the representative refresh.");
        row.modified_at = "2026-08-10T00:00:00Z".to_owned();
        Update::Upsert { row }
    } else {
        Update::Upsert { row: synthetic_case(case_count + i) }
    }
}

} // verus!
