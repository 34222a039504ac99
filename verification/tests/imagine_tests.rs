use rarity::imagine::{
    attachment_description, decode_image, failure_description, generating_description,
    http_failure_message, image_bytes, image_payload, image_request, image_size,
    imagination_content, parse_dimensions, parse_imagine_command, parse_u32,
    ImageGenerationResponse, DEFAULT_IMAGE_MODEL,
};
use rarity::presence::estimated_cpu_load;
use rarity::status::{is_success, status_display};

fn chars(s: &str) -> Vec<char> {
    s.chars().collect()
}

fn response(image: Option<&str>, text: Option<&str>, done: bool, error: Option<&str>) -> ImageGenerationResponse {
    ImageGenerationResponse {
        image: image.map(|s| s.to_string()),
        response: text.map(|s| s.to_string()),
        done,
        error: error.map(|s| s.to_string()),
        done_reason: None,
    }
}

#[test]
fn parse_u32_reads_like_from_str() {
    for s in ["0", "7", "+12", "0004", "4294967295", "", "+", "-1", "12a", " 1", "4294967296", "99999999999"] {
        assert_eq!(parse_u32(&chars(s)), s.parse::<u32>().ok(), "on {s:?}");
    }
}

#[test]
fn parse_dimensions_reads_sizes() {
    assert_eq!(parse_dimensions("1024x768"), Some((1024, 768)));
    assert_eq!(parse_dimensions("640"), Some((640, 640)));
    assert_eq!(parse_dimensions("2048x2048"), Some((2048, 2048)));
    assert_eq!(parse_dimensions("2049x10"), None);
    assert_eq!(parse_dimensions("0"), None);
    assert_eq!(parse_dimensions("10x10x10"), None);
    assert_eq!(parse_dimensions("x10"), None);
    assert_eq!(parse_dimensions("cat"), None);
}

#[test]
fn parse_imagine_command_splits_off_the_size() {
    assert_eq!(
        parse_imagine_command("800x600 a pony in space"),
        (Some((800, 600)), "a pony in space".to_string())
    );
    assert_eq!(parse_imagine_command("a pony"), (None, "a pony".to_string()));
    assert_eq!(parse_imagine_command("512"), (None, "512".to_string()));
    assert_eq!(parse_imagine_command("512 "), (Some((512, 512)), "".to_string()));
    assert_eq!(image_size(None), (512, 512));
    assert_eq!(image_size(Some((3, 4))), (3, 4));
}

#[test]
fn status_texts_of_the_command() {
    assert_eq!(
        generating_description(DEFAULT_IMAGE_MODEL, 512, 256, "a cat"),
        "Model: **x/z-image-turbo:fp8**\nSize: 512×256\nPrompt: a cat"
    );
    assert_eq!(failure_description("boom"), "Failed to generate image: boom");
    assert_eq!(imagination_content("a cat"), "🎨 Here's your imagination of: **a cat**");
    assert_eq!(attachment_description("a cat"), "AI generated image: a cat");
    let request = image_request("a cat", 10, 20);
    assert_eq!(request.model, DEFAULT_IMAGE_MODEL);
    assert_eq!((request.width, request.height, request.stream), (10, 20, false));
}

#[test]
fn http_failures_are_explained() {
    assert_eq!(
        http_failure_message(404, "whatever"),
        "Model 'x/z-image-turbo:fp8' not found. Download it with: ollama pull x/z-image-turbo:fp8"
    );
    assert!(http_failure_message(500, "runtime error: index out of range [0]")
        .starts_with("Ollama has a known bug in the text encoder"));
    assert_eq!(
        http_failure_message(500, "needs 12 GiB"),
        "Not enough GPU memory. Ollama image models need 12+ GB VRAM.\nFor low VRAM (~8 GB), try ComfyUI with FP8 quantized weights instead.\nError: needs 12 GiB"
    );
    assert_eq!(
        http_failure_message(400, "bad request"),
        "Ollama API returned error status 400 Bad Request: bad request"
    );
    assert!(is_success(200) && is_success(299) && !is_success(300) && !is_success(199));
    assert_eq!(status_display(418), "418 I'm a teapot");
}

#[test]
fn image_payload_checks_the_answer() {
    assert_eq!(image_payload(&response(Some("QUJD"), None, true, None)), Ok("QUJD".to_string()));
    assert_eq!(image_payload(&response(None, Some("QUJD"), true, None)), Ok("QUJD".to_string()));
    assert_eq!(
        image_payload(&response(Some("QUJD"), None, true, Some("oops"))),
        Err("Ollama error: oops".to_string())
    );
    assert_eq!(
        image_payload(&response(Some("QUJD"), None, false, None)),
        Err("Image generation did not complete successfully".to_string())
    );
    assert_eq!(
        image_payload(&response(None, None, true, None)),
        Err("No image data in response (done=true, done_reason=None)".to_string())
    );
    let mut with_reason = response(None, None, true, None);
    with_reason.done_reason = Some("stop".to_string());
    assert_eq!(
        image_payload(&with_reason),
        Err("No image data in response (done=true, done_reason=Some(\"stop\"))".to_string())
    );
}

#[test]
fn decode_image_refuses_prose_and_bad_base64() {
    assert_eq!(decode_image("QUJD"), Ok(b"ABC".to_vec()));
    assert_eq!(decode_image("  QUJD\n"), Err("Failed to decode base64 image data".to_string()));
    assert_eq!(decode_image("QUJ"), Err("Failed to decode base64 image data".to_string()));
    let prose = decode_image("I cannot draw that").err().unwrap();
    assert!(prose.starts_with("Model 'x/z-image-turbo:fp8' returned text instead of image data.\n"));
    assert!(prose.ends_with("Response preview: I cannot draw that"));
    let long = "word ".repeat(100);
    let preview = decode_image(&long).err().unwrap();
    let tail = preview.split("Response preview: ").nth(1).unwrap();
    assert_eq!(tail.chars().count(), 150);
    assert_eq!(image_bytes(&response(Some("QUJD"), None, true, None)), Ok(b"ABC".to_vec()));
}

#[test]
fn cpu_load_counts_fifteen_percent_per_model() {
    assert_eq!(estimated_cpu_load(0), 0);
    assert_eq!(estimated_cpu_load(2), 30);
    assert_eq!(estimated_cpu_load(6), 90);
    assert_eq!(estimated_cpu_load(7), 100);
    assert_eq!(estimated_cpu_load(usize::MAX), 100);
}

#[test]
fn status_line_writes_code_and_phrase() {
    assert_eq!(rarity::status::status_line(404, Some("Not Found")), "404 Not Found");
    assert_eq!(rarity::status::status_line(799, None), "799 <unknown status code>");
}
